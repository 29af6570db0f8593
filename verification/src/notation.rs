//! SQL text as statements, with the notation of the vector operators.

use vstd::prelude::*;
use crate::ast::{Statement, StatementView};
use crate::error::{Error, ErrorView};
use crate::json::items_of;
use crate::statements::{make_statements, statements_of};
use crate::syntax::{parse_syntax, syntax_of, take_items, Syntax};
use crate::text::{chars_of, lemma_views_push, same_text, string_of, views};
use crate::tokens::{place, placed_at, sql_tokens, tokenize, Cursor, SqlToken, TokenKind, TokenKindView, TokenView};

verus! {

broadcast use {vstd::string::group_string_axioms, lemma_views_push};

/// The character at a position; none past the end.
pub open spec fn char_at(sql: Seq<char>, at: nat) -> Option<char> {
    if at < sql.len() {
        Some(sql[at as int])
    } else {
        None
    }
}

/// Whether a vector operator that the parser does not know stands at a position: `<->` or `<#>`.
pub open spec fn operator_at(sql: Seq<char>, at: nat) -> bool {
    char_at(sql, at) == Some('<') && (char_at(sql, at + 1) == Some('-') || char_at(sql, at + 1) == Some('#')) && char_at(
        sql,
        at + 2,
    ) == Some('>')
}

/// What is written in place of a token that the parser does not read as it stands, and of how many
/// characters: a vector operator is written as `OPERATOR("..")`, and `REPLACE` at the beginning of a
/// statement, which is read as `INSERT` is, as that.
pub open spec fn replacement(sql: Seq<char>, kind: TokenKindView, at: nat, begins: bool) -> Option<(nat, Seq<char>)> {
    if kind == TokenKindView::Mark("<"@) && operator_at(sql, at) {
        Some((3, " OPERATOR(\""@ + sql.subrange(at as int, at as int + 3) + "\") "@))
    } else if kind == TokenKindView::Word("REPLACE"@) && begins && at + 7 <= sql.len() {
        Some((7, "INSERT "@))
    } else {
        None
    }
}

/// Whether a token may have to be written otherwise.
pub open spec fn replaceable(kind: TokenKindView, begins: bool) -> bool {
    kind == TokenKindView::Mark("<"@) || kind == TokenKindView::Word("REPLACE"@) && begins
}

/// How far a text has been written.
pub struct SpellingView {
    /// The first character that has not been looked at.
    pub cursor: nat,
    /// The first character that has not been copied.
    pub previous: nat,
    pub text: Seq<char>,
    /// Whether a statement begins with the next token.
    pub begins: bool,
}

/// Whether a statement begins behind a token.
pub open spec fn begins_after(kind: TokenKindView, begins: bool) -> bool {
    match kind {
        TokenKindView::Space => begins,
        TokenKindView::Mark(mark) => mark == ";"@,
        _ => false,
    }
}

/// The writing after one more token. A token that is not found is passed over.
pub open spec fn spelled_token(sql: Seq<char>, token: TokenView, state: SpellingView) -> SpellingView {
    let begins = begins_after(token.kind, state.begins);
    if !replaceable(token.kind, state.begins) {
        SpellingView { begins, ..state }
    } else {
        match placed_at(sql, token.line as nat, token.column as nat, state.cursor) {
            None => SpellingView { cursor: sql.len(), begins, ..state },
            Some(start) => match replacement(sql, token.kind, start, state.begins) {
                Some((width, text)) => if start >= state.previous {
                    SpellingView {
                        cursor: start + 1,
                        previous: start + width,
                        text: state.text + sql.subrange(state.previous as int, start as int) + text,
                        begins,
                    }
                } else {
                    SpellingView { cursor: start + 1, begins, ..state }
                },
                None => SpellingView { cursor: start + 1, begins, ..state },
            },
        }
    }
}

/// The writing after the tokens from `from` on.
pub open spec fn spelled_tokens(sql: Seq<char>, tokens: Seq<TokenView>, from: nat, state: SpellingView) -> SpellingView
    decreases tokens.len() - from,
{
    if from >= tokens.len() {
        state
    } else {
        spelled_tokens(sql, tokens, from + 1, spelled_token(sql, tokens[from as int], state))
    }
}

pub open spec fn unspelled() -> SpellingView {
    SpellingView { cursor: 0, previous: 0, text: Seq::empty(), begins: true }
}

/// A text of which these are the tokens, as the parser reads it.
pub open spec fn spelled_text(sql: Seq<char>, tokens: Seq<TokenView>) -> Seq<char> {
    let state = spelled_tokens(sql, tokens, 0, unspelled());
    state.text + sql.skip(state.previous as int)
}

/// A text as the parser reads it.
pub open spec fn spelled(sql: Seq<char>) -> Seq<char> {
    match sql_tokens(sql) {
        Ok(tokens) => spelled_text(sql, tokens),
        Err(_) => sql,
    }
}

fn is_operator(chars: &Vec<char>, at: usize) -> (result: bool)
    requires
        at < chars@.len(),
    ensures
        result == operator_at(chars@, at as nat),
        result ==> at + 3 <= chars@.len(),
{
    let total: usize = chars.len();
    chars[at] == '<' && total - at > 2 && (chars[at + 1] == '-' || chars[at + 1] == '#') && chars[at + 2] == '>'
}

fn is_mark(kind: &TokenKind, mark: &str) -> (result: bool)
    ensures
        result == (kind@ == TokenKindView::Mark(mark@)),
{
    match kind {
        TokenKind::Mark(text) => same_text(text.as_str(), mark),
        _ => false,
    }
}

fn is_word(kind: &TokenKind, keyword: &str) -> (result: bool)
    ensures
        result == (kind@ == TokenKindView::Word(keyword@)),
{
    match kind {
        TokenKind::Word(word) => same_text(word.as_str(), keyword),
        _ => false,
    }
}

/// What is written in place of a token at a position.
fn replace(chars: &Vec<char>, kind: &TokenKind, at: usize, begins: bool) -> (result: Option<(usize, String)>)
    requires
        at < chars@.len(),
    ensures
        match result {
            Some((width, text)) => replacement(chars@, kind@, at as nat, begins) == Some((width as nat, text@)) && at
                + width <= chars@.len(),
            None => replacement(chars@, kind@, at as nat, begins) is None,
        },
{
    let total: usize = chars.len();
    if is_mark(kind, "<") && is_operator(chars, at) {
        let mut text = " OPERATOR(\"".to_owned();
        let operator = string_of(chars, at, at + 3);
        text.append(operator.as_str());
        text.append("\") ");
        return Some((3, text));
    }
    if is_word(kind, "REPLACE") && begins && total - at >= 7 {
        return Some((7, "INSERT ".to_owned()));
    }
    None
}

/// A text of which these are the tokens, as the parser reads it.
pub fn spell_tokens(sql: &str, tokens: &Vec<SqlToken>) -> (text: String)
    ensures
        text@ == spelled_text(sql@, views(tokens@)),
{
    let chars = chars_of(sql);
    let total: usize = chars.len();
    let mut text = String::new();
    let mut cursor = Cursor { at: 0, line: 1, column: 1 };
    let mut previous: usize = 0;
    let mut begins = true;
    let ghost all = views(tokens@);
    let mut index: usize = 0;
    assert(text@ =~= unspelled().text);
    while index < tokens.len()
        invariant
            chars@ == sql@,
            total == chars@.len(),
            all == views(tokens@),
            index <= tokens@.len(),
            cursor.stands(chars@),
            previous <= total,
            spelled_tokens(
                sql@,
                all,
                index as nat,
                (SpellingView { cursor: cursor.at as nat, previous: previous as nat, text: text@, begins }),
            ) == spelled_tokens(sql@, all, 0, unspelled()),
        decreases tokens@.len() - index,
    {
        let ghost state = SpellingView { cursor: cursor.at as nat, previous: previous as nat, text: text@, begins };
        let token = &tokens[index];
        assert(all[index as int] == token@);
        if is_mark(&token.kind, "<") || is_word(&token.kind, "REPLACE") && begins {
            match cursor.seek(&chars, token.line, token.column) {
                Some(start) => {
                    if let Some((width, written)) = replace(&chars, &token.kind, start, begins) {
                        if start >= previous {
                            let before = string_of(&chars, previous, start);
                            text.append(before.as_str());
                            text.append(written.as_str());
                            previous = start + width;
                        }
                    }
                },
                None => {},
            }
        }
        begins = match &token.kind {
            TokenKind::Space => begins,
            TokenKind::Mark(mark) => same_text(mark.as_str(), ";"),
            _ => false,
        };
        assert(spelled_token(sql@, token@, state) == (SpellingView {
            cursor: cursor.at as nat,
            previous: previous as nat,
            text: text@,
            begins,
        }));
        index = index + 1;
    }
    let rest = string_of(&chars, previous, total);
    assert(rest@ =~= sql@.skip(previous as int));
    text.append(rest.as_str());
    text
}

/// A text as the parser reads it.
pub fn spell_operators(sql: &str) -> (text: String)
    ensures
        text@ == spelled(sql@),
{
    match tokenize(sql) {
        Ok(tokens) => spell_tokens(sql, &tokens),
        Err(_) => sql.to_owned(),
    }
}

/// The statements of SQL text.
pub open spec fn parsed(sql: Seq<char>) -> Result<Seq<StatementView>, ErrorView> {
    match syntax_of(spelled(sql)) {
        Ok(tree) => Ok(statements_of(items_of(tree))),
        Err(error) => Err(error),
    }
}

/// The statements that the parser found.
pub fn read_statements(syntax: &Syntax) -> (statements: Vec<Statement>)
    ensures
        views(statements@) == statements_of(items_of(syntax@)),
{
    let items = take_items(syntax);
    make_statements(&items)
}

/// The statements of SQL text.
pub fn parse_statements(sql: &str) -> (result: Result<Vec<Statement>, Error>)
    ensures
        match result {
            Ok(statements) => parsed(sql@) == Ok::<Seq<StatementView>, ErrorView>(views(statements@)),
            Err(error) => parsed(sql@) == Err::<Seq<StatementView>, ErrorView>(error@),
        },
{
    let text = spell_operators(sql);
    match parse_syntax(text.as_str()) {
        Ok(syntax) => Ok(read_statements(&syntax)),
        Err(error) => Err(error),
    }
}

proof fn lemma_spelled_plain(sql: Seq<char>, tokens: Seq<TokenView>, from: nat, state: SpellingView)
    requires
        forall|i: int| 0 <= i < tokens.len() ==> (#[trigger] tokens[i]).kind != TokenKindView::Word("REPLACE"@),
        forall|i: nat| i < sql.len() ==> !#[trigger] operator_at(sql, i),
        state.previous == 0,
        state.text.len() == 0,
        state.cursor <= sql.len(),
    ensures
        spelled_tokens(sql, tokens, from, state).previous == 0,
        spelled_tokens(sql, tokens, from, state).text.len() == 0,
    decreases tokens.len() - from,
{
    if from < tokens.len() {
        let token = tokens[from as int];
        lemma_placed_at(sql, token.line as nat, token.column as nat, state.cursor);
        lemma_spelled_plain(sql, tokens, from + 1, spelled_token(sql, token, state));
    }
}

proof fn lemma_placed_at(sql: Seq<char>, line: nat, column: nat, from: nat)
    ensures
        placed_at(sql, line, column, from) matches Some(at) ==> from <= at < sql.len() && place(sql, at) == (line, column),
    decreases sql.len() - from,
{
    if from < sql.len() && place(sql, from) != (line, column) {
        lemma_placed_at(sql, line, column, from + 1);
    }
}

/// A text without such operators, in which no word is `REPLACE`, is read as it is.
pub proof fn law_spelled_plain(sql: Seq<char>, tokens: Seq<TokenView>)
    requires
        forall|i: int| 0 <= i < tokens.len() ==> (#[trigger] tokens[i]).kind != TokenKindView::Word("REPLACE"@),
        forall|i: nat| i < sql.len() ==> !#[trigger] operator_at(sql, i),
    ensures
        spelled_text(sql, tokens) == sql,
{
    lemma_spelled_plain(sql, tokens, 0, unspelled());
    let state = spelled_tokens(sql, tokens, 0, unspelled());
    assert(state.text + sql.skip(0) =~= sql);
}

} // verus!
