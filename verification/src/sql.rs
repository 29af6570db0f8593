//! SQL text as statements.

use vstd::prelude::*;
use crate::ast::{
    argument_view, argument_views, expr_view, expr_views, optional, Argument, ArgumentView, BinaryOperator, BinaryView,
    Expr, ExprView, Function, FunctionView, Ident, IdentView, Literal, LiteralView, Test, TypeName, TypeNameView,
    UnaryOperator, UnaryView,
};
use crate::json::{entries_of, entry, field, items_of, lemma_entry_position, lemma_field, TreeView};
use crate::syntax::{
    entry_views, expression_notation, expression_text, find_entry, is_null, is_true, literal_notation,
    literal_text, name_notation, name_text, operator_notation, operator_text, sign_notation, sign_text,
    syntax_node, take_entries, take_items, take_text, type_notation, type_text, Syntax, SyntaxNode,
};
use crate::text::{chars_of, lemma_views_push, same_text, views};

verus! {

broadcast use {vstd::string::group_string_axioms, lemma_views_push};

/// The variant that a tree is, and what it holds.
pub open spec fn variant(tree: TreeView) -> (Seq<char>, Option<TreeView>) {
    match tree {
        TreeView::Text(name) => (name, None),
        TreeView::Record(entries) => if entries.len() == 1 {
            (entries[0].0, Some(entries[0].1))
        } else {
            (""@, None)
        },
        _ => (""@, None),
    }
}

pub proof fn lemma_variant(tree: TreeView)
    ensures
        variant(tree).1 matches Some(held) ==> decreases_to!(tree => held),
{
    if let TreeView::Record(entries) = tree {
        if entries.len() == 1 {
            assert(decreases_to!(tree => entries));
            assert(decreases_to!(entries => entries[0]));
            assert(decreases_to!(entries[0] => entries[0].1));
        }
    }
}

pub(crate) fn take_variant(json: &Syntax) -> (result: (String, Option<Syntax>))
    ensures
        variant(json@) == (result.0@, optional(result.1)),
        result.1 matches Some(held) ==> decreases_to!(json@ => held@),
{
    proof {
        lemma_variant(json@);
    }
    match syntax_node(json) {
        SyntaxNode::Text(name) => (name, None),
        SyntaxNode::Record(entries) => {
            let mut entries = entries;
            let ghost all = entry_views(entries@);
            if entries.len() == 1 {
                let ghost first = entries@[0];
                assert(all[0] == (first.0@, first.1@));
                let (name, held) = entries.remove(0);
                (name, Some(held))
            } else {
                ("".to_owned(), None)
            }
        },
        _ => ("".to_owned(), None),
    }
}

/// An entry of a tree's record.
pub open spec fn part(tree: TreeView, name: Seq<char>) -> Option<TreeView> {
    entry(entries_of(tree), name)
}

pub proof fn lemma_part(tree: TreeView, name: Seq<char>)
    ensures
        part(tree, name) == field(tree, name),
        part(tree, name) matches Some(value) ==> decreases_to!(tree => value),
{
    lemma_field(tree, name);
    if !(tree is Record) {
        lemma_entry_position(Seq::empty(), name, 0);
    }
}

/// Whether an entry is there and is no `null`.
pub open spec fn given(tree: TreeView, name: Seq<char>) -> bool {
    part(tree, name) matches Some(value) && !(value is Null)
}

/// Whether an entry is `true`.
pub open spec fn marked(tree: TreeView, name: Seq<char>) -> bool {
    part(tree, name) == Some(TreeView::Boolean(true))
}

/// The items of an entry.
pub open spec fn listed(tree: TreeView, name: Seq<char>) -> Seq<TreeView> {
    match part(tree, name) {
        Some(value) => items_of(value),
        None => Seq::empty(),
    }
}

/// The text of an entry.
pub open spec fn written(tree: TreeView, name: Seq<char>) -> Seq<char> {
    match part(tree, name) {
        Some(TreeView::Text(text)) => text,
        _ => ""@,
    }
}

pub(crate) fn is_given(entries: &Vec<(String, Syntax)>, name: &str) -> (result: bool)
    ensures
        result == (entry(entry_views(entries@), name@) matches Some(value) && !(value is Null)),
{
    match find_entry(entries, name) {
        Some(found) => !is_null(found),
        None => false,
    }
}

pub(crate) fn is_marked(entries: &Vec<(String, Syntax)>, name: &str) -> (result: bool)
    ensures
        result == (entry(entry_views(entries@), name@) == Some(TreeView::Boolean(true))),
{
    match find_entry(entries, name) {
        Some(found) => is_true(found),
        None => false,
    }
}

pub(crate) fn take_listed(entries: &Vec<(String, Syntax)>, name: &str) -> (items: Vec<Syntax>)
    ensures
        views(items@) == (match entry(entry_views(entries@), name@) {
            Some(value) => items_of(value),
            None => Seq::empty(),
        }),
{
    match find_entry(entries, name) {
        Some(found) => take_items(found),
        None => {
            let none: Vec<Syntax> = Vec::new();
            assert(views(none@) =~= Seq::<TreeView>::empty());
            none
        },
    }
}

pub(crate) fn take_written(entries: &Vec<(String, Syntax)>, name: &str) -> (text: String)
    ensures
        text@ == (match entry(entry_views(entries@), name@) {
            Some(TreeView::Text(text)) => text,
            _ => ""@,
        }),
{
    match find_entry(entries, name) {
        Some(found) => match take_text(found) {
            Some(text) => text,
            None => "".to_owned(),
        },
        None => "".to_owned(),
    }
}

/// An identifier.
pub open spec fn ident_of(tree: TreeView) -> IdentView {
    IdentView { value: written(tree, "value"@), quoted: given(tree, "quote_style"@) }
}

pub open spec fn idents_of(items: Seq<TreeView>) -> Seq<IdentView> {
    items.map_values(|item: TreeView| ident_of(item))
}

pub(crate) fn make_ident(json: &Syntax) -> (identifier: Ident)
    ensures
        identifier@ == ident_of(json@),
{
    let entries = take_entries(json);
    Ident { value: take_written(&entries, "value"), quoted: is_given(&entries, "quote_style") }
}

pub(crate) fn make_idents(items: &Vec<Syntax>) -> (result: Vec<Ident>)
    ensures
        views(result@) == idents_of(views(items@)),
{
    let mut out: Vec<Ident> = Vec::new();
    let mut index: usize = 0;
    while index < items.len()
        invariant
            index <= items@.len(),
            out@.len() == index,
            forall|i: int| 0 <= i < index ==> (#[trigger] out@[i])@ == ident_of(items@[i]@),
        decreases items@.len() - index,
    {
        out.push(make_ident(&items[index]));
        index = index + 1;
    }
    assert(views(out@) =~= idents_of(views(items@)));
    out
}

pub(crate) fn make_name(json: &Syntax) -> (result: Vec<Ident>)
    ensures
        views(result@) == idents_of(items_of(json@)),
{
    let items = take_items(json);
    make_idents(&items)
}

/// A list of texts.
pub open spec fn texts_of(items: Seq<TreeView>) -> Seq<Seq<char>> {
    items.map_values(
        |item: TreeView|
            match item {
                TreeView::Text(text) => text,
                _ => ""@,
            },
    )
}

fn make_texts(items: &Vec<Syntax>) -> (result: Vec<String>)
    ensures
        views(result@) == texts_of(views(items@)),
{
    let mut out: Vec<String> = Vec::new();
    let mut index: usize = 0;
    while index < items.len()
        invariant
            index <= items@.len(),
            out@.len() == index,
            forall|i: int| 0 <= i < index ==> (#[trigger] out@[i])@ == texts_of(views(items@))[i],
        decreases items@.len() - index,
    {
        let text = match take_text(&items[index]) {
            Some(text) => text,
            None => "".to_owned(),
        };
        assert(views(items@)[index as int] == items@[index as int]@);
        out.push(text);
        index = index + 1;
    }
    assert(views(out@) =~= texts_of(views(items@)));
    out
}

/// Whether a form of text literal is read as text.
pub open spec fn text_literal(form: Seq<char>) -> bool {
    form == "SingleQuotedString"@ || form == "DoubleQuotedString"@ || form == "EscapedStringLiteral"@ || form
        == "NationalStringLiteral"@ || form == "RawStringLiteral"@
}

/// A literal.
pub open spec fn literal_of(tree: TreeView) -> LiteralView {
    let (form, held) = variant(tree);
    match held {
        None => if form == "Null"@ {
            LiteralView::Null
        } else {
            LiteralView::Other(literal_notation(tree))
        },
        Some(TreeView::Text(text)) => if text_literal(form) {
            LiteralView::Text { form, text }
        } else {
            LiteralView::Other(literal_notation(tree))
        },
        Some(TreeView::Boolean(value)) => if form == "Boolean"@ {
            LiteralView::Boolean(value)
        } else {
            LiteralView::Other(literal_notation(tree))
        },
        Some(TreeView::List(items)) => if form == "Number"@ && items.len() == 2 && items[0] is Text {
            LiteralView::Number { digits: items[0]->Text_0, long: items[1] == TreeView::Boolean(true) }
        } else {
            LiteralView::Other(literal_notation(tree))
        },
        _ => LiteralView::Other(literal_notation(tree)),
    }
}

fn is_text_literal(form: &str) -> (result: bool)
    ensures
        result == text_literal(form@),
{
    same_text(form, "SingleQuotedString") || same_text(form, "DoubleQuotedString") || same_text(form, "EscapedStringLiteral")
        || same_text(form, "NationalStringLiteral") || same_text(form, "RawStringLiteral")
}

fn make_literal(json: &Syntax) -> (literal: Literal)
    ensures
        literal@ == literal_of(json@),
{
    let (form, held) = take_variant(json);
    let held = match held {
        None => {
            if same_text(form.as_str(), "Null") {
                return Literal::Null;
            }
            return Literal::Other(literal_text(json));
        },
        Some(held) => held,
    };
    match syntax_node(&held) {
        SyntaxNode::Text(text) => {
            if is_text_literal(form.as_str()) {
                return Literal::Text { form, text };
            }
        },
        SyntaxNode::Boolean(value) => {
            if same_text(form.as_str(), "Boolean") {
                return Literal::Boolean(value);
            }
        },
        SyntaxNode::List(items) => {
            if same_text(form.as_str(), "Number") && items.len() == 2 {
                assert(views(items@)[0] == items@[0]@);
                assert(views(items@)[1] == items@[1]@);
                if let Some(digits) = take_text(&items[0]) {
                    return Literal::Number { digits, long: is_true(&items[1]) };
                }
            }
        },
        _ => {},
    }
    Literal::Other(literal_text(json))
}

/// The text between the quotes of a quoted operator.
pub open spec fn quoted_operator(items: Seq<TreeView>) -> Option<Seq<char>> {
    if items.len() == 1 {
        match items[0] {
            TreeView::Text(text) => if text == "\"<->\""@ {
                Some("<->"@)
            } else if text == "\"<#>\""@ {
                Some("<#>"@)
            } else if text == "\"<=>\""@ {
                Some("<=>"@)
            } else {
                None
            },
            _ => None,
        }
    } else {
        None
    }
}

/// A binary operator.
pub open spec fn binary_of(tree: TreeView) -> BinaryView {
    let (form, held) = variant(tree);
    match held {
        None => if form == "Plus"@ {
            BinaryView::Plus
        } else if form == "Minus"@ {
            BinaryView::Minus
        } else if form == "Multiply"@ {
            BinaryView::Multiply
        } else if form == "Divide"@ {
            BinaryView::Divide
        } else if form == "Modulo"@ {
            BinaryView::Modulo
        } else if form == "Eq"@ {
            BinaryView::Eq
        } else if form == "NotEq"@ {
            BinaryView::NotEq
        } else if form == "Gt"@ {
            BinaryView::Gt
        } else if form == "GtEq"@ {
            BinaryView::GtEq
        } else if form == "Lt"@ {
            BinaryView::Lt
        } else if form == "LtEq"@ {
            BinaryView::LtEq
        } else if form == "And"@ {
            BinaryView::And
        } else if form == "Or"@ {
            BinaryView::Or
        } else if form == "Spaceship"@ {
            BinaryView::Custom("<=>"@)
        } else {
            BinaryView::Other(operator_notation(tree))
        },
        Some(held) => match quoted_operator(items_of(held)) {
            Some(text) if form == "PGCustomBinaryOperator"@ => BinaryView::Custom(text),
            _ => match held {
                TreeView::Text(text) if form == "Custom"@ => BinaryView::Custom(text),
                _ => BinaryView::Other(operator_notation(tree)),
            },
        },
    }
}

fn find_quoted_operator(items: &Vec<Syntax>) -> (result: Option<&'static str>)
    ensures
        match result {
            Some(text) => quoted_operator(views(items@)) == Some(text@),
            None => quoted_operator(views(items@)) is None,
        },
{
    if items.len() != 1 {
        return None;
    }
    assert(views(items@)[0] == items@[0]@);
    match take_text(&items[0]) {
        Some(text) => if same_text(text.as_str(), "\"<->\"") {
            Some("<->")
        } else if same_text(text.as_str(), "\"<#>\"") {
            Some("<#>")
        } else if same_text(text.as_str(), "\"<=>\"") {
            Some("<=>")
        } else {
            None
        },
        None => None,
    }
}

fn make_plain_binary(form: &str, json: &Syntax) -> (operator: BinaryOperator)
    requires
        variant(json@) == (form@, None::<TreeView>),
    ensures
        operator@ == binary_of(json@),
{
    if same_text(form, "Plus") {
        BinaryOperator::Plus
    } else if same_text(form, "Minus") {
        BinaryOperator::Minus
    } else if same_text(form, "Multiply") {
        BinaryOperator::Multiply
    } else if same_text(form, "Divide") {
        BinaryOperator::Divide
    } else if same_text(form, "Modulo") {
        BinaryOperator::Modulo
    } else if same_text(form, "Eq") {
        BinaryOperator::Eq
    } else if same_text(form, "NotEq") {
        BinaryOperator::NotEq
    } else if same_text(form, "Gt") {
        BinaryOperator::Gt
    } else if same_text(form, "GtEq") {
        BinaryOperator::GtEq
    } else if same_text(form, "Lt") {
        BinaryOperator::Lt
    } else if same_text(form, "LtEq") {
        BinaryOperator::LtEq
    } else if same_text(form, "And") {
        BinaryOperator::And
    } else if same_text(form, "Or") {
        BinaryOperator::Or
    } else if same_text(form, "Spaceship") {
        BinaryOperator::Custom("<=>".to_owned())
    } else {
        BinaryOperator::Other(operator_text(json))
    }
}

fn make_binary(json: &Syntax) -> (operator: BinaryOperator)
    ensures
        operator@ == binary_of(json@),
{
    let (form, held) = take_variant(json);
    match held {
        None => make_plain_binary(form.as_str(), json),
        Some(held) => {
            let items = take_items(&held);
            if same_text(form.as_str(), "PGCustomBinaryOperator") {
                if let Some(text) = find_quoted_operator(&items) {
                    return BinaryOperator::Custom(text.to_owned());
                }
            }
            if same_text(form.as_str(), "Custom") {
                if let Some(text) = take_text(&held) {
                    return BinaryOperator::Custom(text);
                }
            }
            BinaryOperator::Other(operator_text(json))
        },
    }
}

/// A unary operator.
pub open spec fn unary_of(tree: TreeView) -> UnaryView {
    match tree {
        TreeView::Text(form) => if form == "Plus"@ {
            UnaryView::Plus
        } else if form == "Minus"@ {
            UnaryView::Minus
        } else if form == "Not"@ {
            UnaryView::Not
        } else {
            UnaryView::Other(sign_notation(tree))
        },
        _ => UnaryView::Other(sign_notation(tree)),
    }
}

fn make_unary(json: &Syntax) -> (operator: UnaryOperator)
    ensures
        operator@ == unary_of(json@),
{
    if let Some(form) = take_text(json) {
        if same_text(form.as_str(), "Plus") {
            return UnaryOperator::Plus;
        }
        if same_text(form.as_str(), "Minus") {
            return UnaryOperator::Minus;
        }
        if same_text(form.as_str(), "Not") {
            return UnaryOperator::Not;
        }
    }
    UnaryOperator::Other(sign_text(json))
}

/// A type.
pub open spec fn type_of_tree(tree: TreeView) -> TypeNameView {
    let (form, held) = variant(tree);
    let parts = match held {
        Some(held) => items_of(held),
        None => Seq::empty(),
    };
    if form == "Custom"@ && parts.len() == 2 {
        TypeNameView {
            form,
            name: idents_of(items_of(parts[0])),
            modifiers: texts_of(items_of(parts[1])),
            text: type_notation(tree),
        }
    } else {
        TypeNameView { form, name: Seq::empty(), modifiers: Seq::empty(), text: type_notation(tree) }
    }
}

pub(crate) fn make_type(json: &Syntax) -> (data_type: TypeName)
    ensures
        data_type@ == type_of_tree(json@),
{
    let (form, held) = take_variant(json);
    let text = type_text(json);
    if let Some(held) = held {
        let parts = take_items(&held);
        if same_text(form.as_str(), "Custom") && parts.len() == 2 {
            assert(views(parts@)[0] == parts@[0]@);
            assert(views(parts@)[1] == parts@[1]@);
            let name = make_name(&parts[0]);
            let items = take_items(&parts[1]);
            let modifiers = make_texts(&items);
            return TypeName { form, name, modifiers, text };
        }
    }
    let name: Vec<Ident> = Vec::new();
    let modifiers: Vec<String> = Vec::new();
    assert(views(name@) =~= Seq::<IdentView>::empty());
    assert(views(modifiers@) =~= Seq::<Seq<char>>::empty());
    TypeName { form, name, modifiers, text }
}

/// The test that a form of expression is.
pub open spec fn test_of(form: Seq<char>) -> Option<Test> {
    if form == "IsNull"@ {
        Some(Test::IsNull)
    } else if form == "IsNotNull"@ {
        Some(Test::IsNotNull)
    } else if form == "IsTrue"@ {
        Some(Test::IsTrue)
    } else if form == "IsFalse"@ {
        Some(Test::IsFalse)
    } else if form == "IsNotTrue"@ {
        Some(Test::IsNotTrue)
    } else if form == "IsNotFalse"@ {
        Some(Test::IsNotFalse)
    } else {
        None
    }
}

fn find_test(form: &str) -> (result: Option<Test>)
    ensures
        result == test_of(form@),
{
    if same_text(form, "IsNull") {
        Some(Test::IsNull)
    } else if same_text(form, "IsNotNull") {
        Some(Test::IsNotNull)
    } else if same_text(form, "IsTrue") {
        Some(Test::IsTrue)
    } else if same_text(form, "IsFalse") {
        Some(Test::IsFalse)
    } else if same_text(form, "IsNotTrue") {
        Some(Test::IsNotTrue)
    } else if same_text(form, "IsNotFalse") {
        Some(Test::IsNotFalse)
    } else {
        None
    }
}

/// The escape character of a `LIKE`.
pub open spec fn escape_of(tree: TreeView) -> Option<char> {
    match part(tree, "escape_char"@) {
        Some(TreeView::Text(text)) => if text.len() == 1 {
            Some(text[0])
        } else {
            None
        },
        _ => None,
    }
}

fn find_escape(entries: &Vec<(String, Syntax)>) -> (result: Option<char>)
    ensures
        result == (match entry(entry_views(entries@), "escape_char"@) {
            Some(TreeView::Text(text)) => if text.len() == 1 {
                Some(text[0])
            } else {
                None
            },
            _ => None,
        }),
{
    match find_entry(entries, "escape_char") {
        Some(found) => match take_text(found) {
            Some(text) => {
                let chars = chars_of(text.as_str());
                if chars.len() == 1 {
                    Some(chars[0])
                } else {
                    None
                }
            },
            None => None,
        },
        None => None,
    }
}

/// The expression of an entry.
pub open spec fn expr_part(tree: TreeView, name: Seq<char>) -> ExprView
    decreases tree, 0nat,
{
    proof {
        lemma_part(tree, name);
    }
    match part(tree, name) {
        Some(value) => expr_of(value),
        None => ExprView::Other(""@),
    }
}

/// The expressions of a list.
pub open spec fn exprs_of(items: Seq<TreeView>) -> Seq<ExprView>
    decreases items, 0nat,
{
    Seq::new(
        items.len(),
        |i: int|
            if 0 <= i < items.len() {
                expr_of(items[i])
            } else {
                arbitrary()
            },
    )
}

/// The expressions of an entry.
pub open spec fn expr_list(tree: TreeView, name: Seq<char>) -> Seq<ExprView>
    decreases tree, 0nat,
{
    proof {
        lemma_part(tree, name);
    }
    match part(tree, name) {
        Some(TreeView::List(items)) => exprs_of(items),
        _ => Seq::empty(),
    }
}

/// An argument of a function.
pub open spec fn argument_of(tree: TreeView) -> ArgumentView
    decreases tree, 0nat,
{
    proof {
        lemma_variant(tree);
    }
    match variant(tree) {
        (form, Some(held)) => if form == "Unnamed"@ {
            proof {
                lemma_variant(held);
            }
            match variant(held) {
                (inner, Some(expression)) => if inner == "Expr"@ {
                    ArgumentView::Expr(expr_of(expression))
                } else {
                    ArgumentView::Wildcard(""@)
                },
                _ => ArgumentView::Wildcard(""@),
            }
        } else {
            ArgumentView::Named(""@)
        },
        _ => ArgumentView::Named(""@),
    }
}

/// The arguments of a list.
pub open spec fn arguments_of(items: Seq<TreeView>) -> Seq<ArgumentView>
    decreases items, 0nat,
{
    Seq::new(
        items.len(),
        |i: int|
            if 0 <= i < items.len() {
                argument_of(items[i])
            } else {
                arbitrary()
            },
    )
}

/// The arguments of a function call.
pub open spec fn argument_list(tree: TreeView) -> Seq<ArgumentView>
    decreases tree, 0nat,
{
    proof {
        lemma_part(tree, "args"@);
    }
    match part(tree, "args"@) {
        Some(TreeView::List(items)) => arguments_of(items),
        _ => Seq::empty(),
    }
}

/// How the name of a function call is written.
pub open spec fn function_name_text(tree: TreeView) -> Seq<char> {
    match part(tree, "name"@) {
        Some(name) => name_notation(name),
        None => ""@,
    }
}

/// A function call.
pub open spec fn function_of(tree: TreeView, text: Seq<char>) -> FunctionView
    decreases tree, 1nat,
{
    FunctionView {
        name: idents_of(listed(tree, "name"@)),
        name_text: function_name_text(tree),
        arguments: argument_list(tree),
        distinct: marked(tree, "distinct"@),
        modified: given(tree, "filter"@) || given(tree, "over"@) || listed(tree, "order_by"@).len() > 0,
        special: marked(tree, "special"@),
        null_treatment: given(tree, "null_treatment"@),
        text,
    }
}

/// The operator of an entry.
pub open spec fn binary_part(tree: TreeView) -> BinaryView {
    match part(tree, "op"@) {
        Some(value) => binary_of(value),
        None => BinaryView::Other(""@),
    }
}

pub open spec fn unary_part(tree: TreeView) -> UnaryView {
    match part(tree, "op"@) {
        Some(value) => unary_of(value),
        None => UnaryView::Other(""@),
    }
}

pub open spec fn type_part(tree: TreeView) -> TypeNameView {
    match part(tree, "data_type"@) {
        Some(value) => type_of_tree(value),
        None => TypeNameView { form: ""@, name: Seq::empty(), modifiers: Seq::empty(), text: ""@ },
    }
}

/// An expression.
pub open spec fn expr_of(tree: TreeView) -> ExprView
    decreases tree, 2nat,
{
    proof {
        lemma_variant(tree);
    }
    match variant(tree) {
        (form, Some(held)) => if form == "Identifier"@ {
            ExprView::Identifier(ident_of(held), expression_notation(tree))
        } else if form == "CompoundIdentifier"@ {
            ExprView::CompoundIdentifier(idents_of(items_of(held)), expression_notation(tree))
        } else if form == "Value"@ {
            ExprView::Value(literal_of(held))
        } else if form == "Nested"@ {
            ExprView::Nested(Box::new(expr_of(held)))
        } else if form == "Function"@ {
            ExprView::Function(function_of(held, expression_notation(tree)))
        } else if form == "Array"@ {
            ExprView::Array(expr_list(held, "elem"@), marked(held, "named"@), expression_notation(tree))
        } else if form == "BinaryOp"@ {
            ExprView::BinaryOp(
                Box::new(expr_part(held, "left"@)),
                binary_part(held),
                Box::new(expr_part(held, "right"@)),
            )
        } else if form == "UnaryOp"@ {
            ExprView::UnaryOp(unary_part(held), Box::new(expr_part(held, "expr"@)))
        } else if form == "Between"@ {
            ExprView::Between {
                expr: Box::new(expr_part(held, "expr"@)),
                negated: marked(held, "negated"@),
                low: Box::new(expr_part(held, "low"@)),
                high: Box::new(expr_part(held, "high"@)),
            }
        } else if form == "InList"@ {
            ExprView::InList {
                expr: Box::new(expr_part(held, "expr"@)),
                list: expr_list(held, "list"@),
                negated: marked(held, "negated"@),
            }
        } else if form == "Like"@ || form == "ILike"@ {
            ExprView::Like {
                expr: Box::new(expr_part(held, "expr"@)),
                pattern: Box::new(expr_part(held, "pattern"@)),
                negated: marked(held, "negated"@),
                escape: escape_of(held),
                insensitive: form == "ILike"@,
            }
        } else if form == "Cast"@ {
            ExprView::Cast {
                expr: Box::new(expr_part(held, "expr"@)),
                data_type: type_part(held),
                formatted: given(held, "format"@),
            }
        } else {
            match test_of(form) {
                Some(test) => ExprView::Test(test, Box::new(expr_of(held))),
                None => ExprView::Other(expression_notation(tree)),
            }
        },
        _ => ExprView::Other(expression_notation(tree)),
    }
}

fn make_exprs(items: &Vec<Syntax>, Ghost(above): Ghost<TreeView>) -> (result: Vec<Expr>)
    requires
        forall|i: int| 0 <= i < items@.len() ==> decreases_to!(above => (#[trigger] items@[i])@),
    ensures
        expr_views(result@) == exprs_of(views(items@)),
    decreases above, 0nat,
{
    let mut out: Vec<Expr> = Vec::new();
    let mut index: usize = 0;
    while index < items.len()
        invariant
            forall|i: int| 0 <= i < items@.len() ==> decreases_to!(above => (#[trigger] items@[i])@),
            index <= items@.len(),
            out@.len() == index,
            forall|i: int| 0 <= i < index ==> expr_view(#[trigger] out@[i]) == expr_of(items@[i]@),
        decreases items@.len() - index,
    {
        let expression = make_expr(&items[index]);
        out.push(expression);
        index = index + 1;
    }
    assert(expr_views(out@) =~= exprs_of(views(items@)));
    out
}

fn make_argument(json: &Syntax) -> (argument: Argument)
    ensures
        argument@ == argument_of(json@),
    decreases json@, 0nat,
{
    let (form, held) = take_variant(json);
    if let Some(held) = held {
        if same_text(form.as_str(), "Unnamed") {
            let (inner, expression) = take_variant(&held);
            if let Some(expression) = expression {
                if same_text(inner.as_str(), "Expr") {
                    return Argument::Expr(make_expr(&expression));
                }
            }
            return Argument::Wildcard("".to_owned());
        }
    }
    Argument::Named("".to_owned())
}

fn make_arguments(items: &Vec<Syntax>, Ghost(above): Ghost<TreeView>) -> (result: Vec<Argument>)
    requires
        forall|i: int| 0 <= i < items@.len() ==> decreases_to!(above => (#[trigger] items@[i])@),
    ensures
        argument_views(result@) == arguments_of(views(items@)),
    decreases above, 0nat,
{
    let mut out: Vec<Argument> = Vec::new();
    let mut index: usize = 0;
    while index < items.len()
        invariant
            forall|i: int| 0 <= i < items@.len() ==> decreases_to!(above => (#[trigger] items@[i])@),
            index <= items@.len(),
            out@.len() == index,
            forall|i: int| 0 <= i < index ==> argument_view(#[trigger] out@[i]) == argument_of(items@[i]@),
        decreases items@.len() - index,
    {
        let argument = make_argument(&items[index]);
        out.push(argument);
        index = index + 1;
    }
    assert(argument_views(out@) =~= arguments_of(views(items@)));
    out
}

fn make_expr_list(entries: &Vec<(String, Syntax)>, name: &str, Ghost(above): Ghost<TreeView>) -> (result: Vec<Expr>)
    requires
        entry_views(entries@) == entries_of(above),
        forall|i: int| 0 <= i < entries@.len() ==> decreases_to!(above => (#[trigger] entries@[i]).1@),
    ensures
        expr_views(result@) == expr_list(above, name@),
    decreases above, 1nat,
{
    proof {
        lemma_part(above, name@);
    }
    match find_entry(entries, name) {
        Some(found) => {
            let items = take_items(found);
            let out = make_exprs(&items, Ghost(found@));
            proof {
                if !(found@ is List) {
                    assert(expr_views(out@) =~= Seq::<ExprView>::empty());
                }
            }
            out
        },
        None => {
            let none: Vec<Expr> = Vec::new();
            assert(expr_views(none@) =~= Seq::<ExprView>::empty());
            none
        },
    }
}

fn make_part(entries: &Vec<(String, Syntax)>, name: &str, Ghost(above): Ghost<TreeView>) -> (result: Box<Expr>)
    requires
        entry_views(entries@) == entries_of(above),
        forall|i: int| 0 <= i < entries@.len() ==> decreases_to!(above => (#[trigger] entries@[i]).1@),
    ensures
        expr_view(*result) == expr_part(above, name@),
    decreases above, 1nat,
{
    proof {
        lemma_part(above, name@);
    }
    match find_entry(entries, name) {
        Some(found) => Box::new(make_expr(found)),
        None => Box::new(Expr::Other("".to_owned())),
    }
}

fn make_function(json: &Syntax, text: String) -> (function: Function)
    ensures
        function@ == function_of(json@, text@),
    decreases json@, 3nat,
{
    let entries = take_entries(json);
    let names = take_listed(&entries, "name");
    let name = make_idents(&names);
    let name_text = match find_entry(&entries, "name") {
        Some(found) => name_text(found),
        None => "".to_owned(),
    };
    proof {
        lemma_part(json@, "args"@);
    }
    let arguments = match find_entry(&entries, "args") {
        Some(found) => {
            let items = take_items(found);
            let out = make_arguments(&items, Ghost(found@));
            proof {
                if !(found@ is List) {
                    assert(argument_views(out@) =~= Seq::<ArgumentView>::empty());
                }
            }
            out
        },
        None => {
            let none: Vec<Argument> = Vec::new();
            assert(argument_views(none@) =~= Seq::<ArgumentView>::empty());
            none
        },
    };
    let ordering = take_listed(&entries, "order_by");
    assert(views(ordering@).len() == ordering@.len());
    let modified = is_given(&entries, "filter") || is_given(&entries, "over") || ordering.len() > 0;
    Function {
        name,
        name_text,
        arguments,
        distinct: is_marked(&entries, "distinct"),
        modified,
        special: is_marked(&entries, "special"),
        null_treatment: is_given(&entries, "null_treatment"),
        text,
    }
}

fn make_binary_part(entries: &Vec<(String, Syntax)>, Ghost(above): Ghost<TreeView>) -> (operator: BinaryOperator)
    requires
        entry_views(entries@) == entries_of(above),
    ensures
        operator@ == binary_part(above),
{
    match find_entry(entries, "op") {
        Some(found) => make_binary(found),
        None => BinaryOperator::Other("".to_owned()),
    }
}

fn make_unary_part(entries: &Vec<(String, Syntax)>, Ghost(above): Ghost<TreeView>) -> (operator: UnaryOperator)
    requires
        entry_views(entries@) == entries_of(above),
    ensures
        operator@ == unary_part(above),
{
    match find_entry(entries, "op") {
        Some(found) => make_unary(found),
        None => UnaryOperator::Other("".to_owned()),
    }
}

pub(crate) fn make_type_part(entries: &Vec<(String, Syntax)>, Ghost(above): Ghost<TreeView>) -> (data_type: TypeName)
    requires
        entry_views(entries@) == entries_of(above),
    ensures
        data_type@ == type_part(above),
{
    match find_entry(entries, "data_type") {
        Some(found) => make_type(found),
        None => {
            let name: Vec<Ident> = Vec::new();
            let modifiers: Vec<String> = Vec::new();
            assert(views(name@) =~= Seq::<IdentView>::empty());
            assert(views(modifiers@) =~= Seq::<Seq<char>>::empty());
            TypeName { form: "".to_owned(), name, modifiers, text: "".to_owned() }
        },
    }
}

/// The forms of expression that hold entries.
pub open spec fn entry_form(form: Seq<char>) -> bool {
    form == "Array"@ || form == "BinaryOp"@ || form == "UnaryOp"@ || form == "Between"@ || form == "InList"@ || form
        == "Like"@ || form == "ILike"@ || form == "Cast"@
}

#[verifier::rlimit(60)]
fn make_entry_expr(form: &str, held: &Syntax, json: &Syntax) -> (result: Option<Expr>)
    requires
        variant(json@) == (form@, Some(held@)),
        decreases_to!(json@ => held@),
        form@ != "Identifier"@ && form@ != "CompoundIdentifier"@ && form@ != "Value"@ && form@ != "Nested"@ && form@
            != "Function"@,
    ensures
        match result {
            Some(expression) => expression@ == expr_of(json@) && entry_form(form@),
            None => !entry_form(form@),
        },
    decreases json@, 0nat,
{
    let entries = take_entries(held);
    if same_text(form, "Array") {
        let items = make_expr_list(&entries, "elem", Ghost(held@));
        Some(Expr::Array(items, is_marked(&entries, "named"), expression_text(json)))
    } else if same_text(form, "BinaryOp") {
        let left = make_part(&entries, "left", Ghost(held@));
        let operator = make_binary_part(&entries, Ghost(held@));
        let right = make_part(&entries, "right", Ghost(held@));
        Some(Expr::BinaryOp(left, operator, right))
    } else if same_text(form, "UnaryOp") {
        let operator = make_unary_part(&entries, Ghost(held@));
        Some(Expr::UnaryOp(operator, make_part(&entries, "expr", Ghost(held@))))
    } else if same_text(form, "Between") {
        let expr = make_part(&entries, "expr", Ghost(held@));
        let low = make_part(&entries, "low", Ghost(held@));
        let high = make_part(&entries, "high", Ghost(held@));
        Some(Expr::Between { expr, negated: is_marked(&entries, "negated"), low, high })
    } else if same_text(form, "InList") {
        let expr = make_part(&entries, "expr", Ghost(held@));
        let list = make_expr_list(&entries, "list", Ghost(held@));
        Some(Expr::InList { expr, list, negated: is_marked(&entries, "negated") })
    } else if same_text(form, "Like") || same_text(form, "ILike") {
        let expr = make_part(&entries, "expr", Ghost(held@));
        let pattern = make_part(&entries, "pattern", Ghost(held@));
        Some(
            Expr::Like {
                expr,
                pattern,
                negated: is_marked(&entries, "negated"),
                escape: find_escape(&entries),
                insensitive: same_text(form, "ILike"),
            },
        )
    } else if same_text(form, "Cast") {
        let expr = make_part(&entries, "expr", Ghost(held@));
        let data_type = make_type_part(&entries, Ghost(held@));
        Some(Expr::Cast { expr, data_type, formatted: is_given(&entries, "format") })
    } else {
        None
    }
}

#[verifier::rlimit(60)]
pub(crate) fn make_expr(json: &Syntax) -> (expression: Expr)
    ensures
        expression@ == expr_of(json@),
    decreases json@, 2nat,
{
    let (form, held) = take_variant(json);
    let held = match held {
        Some(held) => held,
        None => return Expr::Other(expression_text(json)),
    };
    if same_text(form.as_str(), "Identifier") {
        Expr::Identifier(make_ident(&held), expression_text(json))
    } else if same_text(form.as_str(), "CompoundIdentifier") {
        Expr::CompoundIdentifier(make_name(&held), expression_text(json))
    } else if same_text(form.as_str(), "Value") {
        Expr::Value(make_literal(&held))
    } else if same_text(form.as_str(), "Nested") {
        Expr::Nested(Box::new(make_expr(&held)))
    } else if same_text(form.as_str(), "Function") {
        Expr::Function(make_function(&held, expression_text(json)))
    } else {
        match make_entry_expr(form.as_str(), &held, json) {
            Some(expression) => expression,
            None => match find_test(form.as_str()) {
                Some(test) => Expr::Test(test, Box::new(make_expr(&held))),
                None => Expr::Other(expression_text(json)),
            },
        }
    }
}

} // verus!
