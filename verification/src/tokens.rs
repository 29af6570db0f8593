//! The tokens of SQL text, and where they stand.

use vstd::prelude::*;
use sqlparser::tokenizer::{Token, TokenWithLocation, Tokenizer};
use crate::text::views;

verus! {

broadcast use vstd::string::group_string_axioms;

/// What a token of SQL text is.
pub enum TokenKind {
    /// A word, by the name of the keyword that it is: `NoKeyword` where it is none.
    Word(String),
    Number(String),
    Placeholder(String),
    /// White space, or a comment.
    Space,
    /// Any other token, as it is written.
    Mark(String),
}

pub enum TokenKindView {
    Word(Seq<char>),
    Number(Seq<char>),
    Placeholder(Seq<char>),
    Space,
    Mark(Seq<char>),
}

impl View for TokenKind {
    type V = TokenKindView;

    open spec fn view(&self) -> TokenKindView {
        match self {
            TokenKind::Word(keyword) => TokenKindView::Word(keyword@),
            TokenKind::Number(text) => TokenKindView::Number(text@),
            TokenKind::Placeholder(name) => TokenKindView::Placeholder(name@),
            TokenKind::Space => TokenKindView::Space,
            TokenKind::Mark(text) => TokenKindView::Mark(text@),
        }
    }
}

/// A token of SQL text, and the line and the column at which it stands.
pub struct SqlToken {
    pub kind: TokenKind,
    pub line: u64,
    pub column: u64,
}

pub struct TokenView {
    pub kind: TokenKindView,
    pub line: u64,
    pub column: u64,
}

impl View for SqlToken {
    type V = TokenView;

    open spec fn view(&self) -> TokenView {
        TokenView { kind: self.kind@, line: self.line, column: self.column }
    }
}

impl TokenView {
    /// The name of the placeholder that a token is.
    pub open spec fn placeholder(self) -> Option<Seq<char>> {
        match self.kind {
            TokenKindView::Placeholder(name) => Some(name),
            _ => None,
        }
    }
}

/// The tokens of SQL text, or what is wrong with the text.
pub uninterp spec fn sql_tokens(sql: Seq<char>) -> Result<Seq<TokenView>, Seq<char>>;

/// `sqlparser::tokenizer::Tokenizer::tokenize_with_location` under the generic dialect: a word with
/// the name of its keyword, a number and a placeholder as they are written, any other token by its
/// `to_string`. What the tokens of a text are is not said, only that they depend on the text alone.
#[verifier::external_body]
pub(crate) fn tokenize(sql: &str) -> (result: Result<Vec<SqlToken>, String>)
    ensures
        match result {
            Ok(tokens) => sql_tokens(sql@) == Ok::<Seq<TokenView>, Seq<char>>(views(tokens@)),
            Err(text) => sql_tokens(sql@) == Err::<Seq<TokenView>, Seq<char>>(text@),
        },
{
    let tokens = Tokenizer::new(&sqlparser::dialect::GenericDialect {}, sql).tokenize_with_location();
    let convert = |token: TokenWithLocation| SqlToken {
        kind: match token.token {
            Token::Word(word) => TokenKind::Word(format!("{:?}", word.keyword)),
            Token::Number(text, _) => TokenKind::Number(text),
            Token::Placeholder(name) => TokenKind::Placeholder(name),
            Token::Whitespace(_) => TokenKind::Space,
            other => TokenKind::Mark(other.to_string()),
        },
        line: token.location.line,
        column: token.location.column,
    };
    tokens.map(|tokens| tokens.into_iter().map(convert).collect()).map_err(|error| error.to_string())
}

/// The line and the column at which the character at `at` stands, both counted from one.
pub open spec fn place(sql: Seq<char>, at: nat) -> (nat, nat)
    decreases at,
{
    if at == 0 {
        (1, 1)
    } else {
        let (line, column) = place(sql, (at - 1) as nat);
        if sql[at - 1] == '\n' {
            (line + 1, 1)
        } else {
            (line, column + 1)
        }
    }
}

/// The first character, from `from` on, that stands at a line and a column.
pub open spec fn placed_at(sql: Seq<char>, line: nat, column: nat, from: nat) -> Option<nat>
    decreases sql.len() - from,
{
    if from >= sql.len() {
        None
    } else if place(sql, from) == (line, column) {
        Some(from)
    } else {
        placed_at(sql, line, column, from + 1)
    }
}

/// A place in a text.
pub struct Cursor {
    pub at: usize,
    pub line: u128,
    pub column: u128,
}

impl Cursor {
    pub open spec fn stands(self, sql: Seq<char>) -> bool {
        &&& self.at <= sql.len()
        &&& place(sql, self.at as nat) == (self.line as nat, self.column as nat)
        &&& self.line <= self.at + 1
        &&& self.column <= self.at + 1
    }

    /// Moves behind the next character that stands at a line and a column, and gives its position.
    pub fn seek(&mut self, chars: &Vec<char>, line: u64, column: u64) -> (result: Option<usize>)
        requires
            old(self).stands(chars@),
        ensures
            final(self).stands(chars@),
            match result {
                Some(start) => placed_at(chars@, line as nat, column as nat, old(self).at as nat) == Some(start as nat)
                    && final(self).at == start + 1 && start < chars@.len(),
                None => placed_at(chars@, line as nat, column as nat, old(self).at as nat) is None && final(self).at
                    == chars@.len(),
            },
    {
        let ghost from = self.at as nat;
        while self.at < chars.len()
            invariant
                self.stands(chars@),
                    placed_at(chars@, line as nat, column as nat, self.at as nat) == placed_at(
                    chars@,
                    line as nat,
                    column as nat,
                    from,
                ),
                from == old(self).at,
            decreases chars@.len() - self.at,
        {
            let found = self.line == line as u128 && self.column == column as u128;
            let start: usize = self.at;
            if chars[start] == '\n' {
                self.line = self.line + 1;
                self.column = 1;
            } else {
                self.column = self.column + 1;
            }
            self.at = start + 1;
            if found {
                return Some(start);
            }
        }
        None
    }
}

} // verus!
