//! Which SQL texts the parser can be given: on some it would not return, or would need a stack that
//! grows with the text.

use vstd::prelude::*;
use crate::text::{chars_of, lemma_views_push, parse_unsigned, same_text, unsigned_value, views};
use crate::tokens::{sql_tokens, SqlToken, TokenKind, TokenKindView, TokenView};

verus! {

broadcast use {vstd::string::group_string_axioms, lemma_views_push};

/// How deep a text may be nested, in operators that follow each other. To be parsed and written, a text
/// of this depth takes less than the two mebibytes of stack that a thread has by default.
pub const MAX_DEPTH: usize = 190;

/// How much deeper a bracket goes, a case, and an operator whose right side goes on over all others.
pub const BRACKET_DEPTH: usize = 5;

/// How much deeper a bracket goes for each operator before it, which the parser has not finished.
pub const LEAD_DEPTH: usize = 3;

/// How deep a condition behind an `AND` or an `OR` begins.
pub const JOINED_DEPTH: usize = 3;

/// How much deeper a sign or a negation goes, before what it is of.
pub const SIGN_DEPTH: usize = 3;

/// How much deeper an interval goes, which the parser tries twice.
pub const INTERVAL_DEPTH: usize = 20;

/// How much deeper a statement goes that may hold another one.
pub const STATEMENT_DEPTH: usize = 25;

/// How much deeper an operator between queries goes, or a type in a type.
pub const QUERY_DEPTH: usize = 4;

/// The kinds of the tokens that are no white space.
pub open spec fn significant(tokens: Seq<TokenView>) -> Seq<TokenKindView>
    decreases tokens.len(),
{
    if tokens.len() == 0 {
        Seq::empty()
    } else if tokens.last().kind is Space {
        significant(tokens.drop_last())
    } else {
        significant(tokens.drop_last()).push(tokens.last().kind)
    }
}

/// Whether a keyword stands at a position.
pub open spec fn keyword_at(kinds: Seq<TokenKindView>, at: int, keyword: Seq<char>) -> bool {
    0 <= at < kinds.len() && kinds[at] == TokenKindView::Word(keyword)
}

/// Whether a mark stands at a position.
pub open spec fn mark_at(kinds: Seq<TokenKindView>, at: int, mark: Seq<char>) -> bool {
    0 <= at < kinds.len() && kinds[at] == TokenKindView::Mark(mark)
}

/// Whether any word stands at a position.
pub open spec fn word_at(kinds: Seq<TokenKindView>, at: int) -> bool {
    0 <= at < kinds.len() && kinds[at] is Word
}

/// Whether a literal between single quotes stands at a position.
pub open spec fn quoted_at(kinds: Seq<TokenKindView>, at: int) -> bool {
    0 <= at < kinds.len() && (kinds[at] matches TokenKindView::Mark(text) && text.len() > 0 && text[0] == '\'')
}

/// Whether a number stands at a position that is no integer up to `max`.
pub open spec fn misfit_at(kinds: Seq<TokenKindView>, at: int, max: nat) -> bool {
    0 <= at < kinds.len() && (kinds[at] matches TokenKindView::Number(text) && unsigned_value(text, max) is None)
}

/// What is known of a position from the tokens before it.
pub struct Place {
    /// Whether a statement may begin here.
    pub starts: bool,
    /// Whether the options of an `EXPLAIN` may go on here.
    pub explains: bool,
    /// Whether the name of the format of an `EXPLAIN` stands here.
    pub formats: bool,
    /// Whether a `CREATE` began a statement that has not ended.
    pub creates: bool,
    /// Whether a `PREPARE` began a statement that has not ended.
    pub prepares: bool,
    /// Whether what a `CREATE` makes may be named here.
    pub makes: bool,
}

impl Copy for Place {

}

impl Clone for Place {
    fn clone(&self) -> (result: Self)
        ensures
            result == *self,
    {
        *self
    }
}

/// The place before the first token of a statement.
pub open spec fn outset() -> Place {
    Place { starts: true, explains: false, formats: false, creates: false, prepares: false, makes: false }
}

/// Whether a token may stand between `CREATE` and what is made.
pub open spec fn modifies(kind: TokenKindView) -> bool {
    ||| kind == TokenKindView::Word("OR"@)
    ||| kind == TokenKindView::Word("REPLACE"@)
    ||| kind == TokenKindView::Word("ALTER"@)
    ||| kind == TokenKindView::Word("LOCAL"@)
    ||| kind == TokenKindView::Word("GLOBAL"@)
    ||| kind == TokenKindView::Word("TRANSIENT"@)
    ||| kind == TokenKindView::Word("TEMP"@)
    ||| kind == TokenKindView::Word("TEMPORARY"@)
}

/// The place behind a token.
pub open spec fn place_after(place: Place, kind: TokenKindView) -> Place {
    let explains = place.formats || place.starts && (kind == TokenKindView::Word("EXPLAIN"@) || kind
        == TokenKindView::Word("DESCRIBE"@)) || place.explains && (kind == TokenKindView::Word("ANALYZE"@) || kind
        == TokenKindView::Word("VERBOSE"@));
    let creates = place.starts && kind == TokenKindView::Word("CREATE"@);
    if kind == TokenKindView::Mark(";"@) {
        outset()
    } else {
        Place {
            starts: explains || place.prepares && kind == TokenKindView::Word("AS"@) || place.creates && kind
                == TokenKindView::Word("BEGIN"@),
            explains,
            formats: place.explains && kind == TokenKindView::Word("FORMAT"@),
            creates: place.creates || creates,
            prepares: place.prepares || place.starts && kind == TokenKindView::Word("PREPARE"@),
            makes: creates || place.makes && modifies(kind),
        }
    }
}

/// The place at a position.
pub open spec fn place_at(kinds: Seq<TokenKindView>, at: nat) -> Place
    decreases at,
{
    if at == 0 {
        outset()
    } else {
        place_after(place_at(kinds, (at - 1) as nat), kinds[at - 1])
    }
}

/// Whether a token ends a statement or a part of a list, or is a bracket.
pub open spec fn punctuates(kind: TokenKindView) -> bool {
    kind == TokenKindView::Mark(";"@) || kind == TokenKindView::Mark(","@) || opens(kind) || closes(kind)
}

/// Whether the parser may take the token at a position for the name of an operator, or a part of it.
pub open spec fn operator_name_at(kinds: Seq<TokenKindView>, at: int) -> bool {
    mark_at(kinds, at - 1, "."@) || mark_at(kinds, at - 1, "("@) && keyword_at(kinds, at - 2, "OPERATOR"@)
}

/// Whether the parser may fail at a position without an error, or misses the end of something there.
pub open spec fn fatal_at(kinds: Seq<TokenKindView>, at: int) -> bool {
    ||| keyword_at(kinds, at, "REPLACE"@) && place_at(kinds, at as nat).starts
    ||| punctuates(kinds[at]) && operator_name_at(kinds, at)
    ||| keyword_at(kinds, at, "TOP"@) && misfit_at(kinds, at + 1, u64::MAX as nat)
    ||| keyword_at(kinds, at, "AUTO_INCREMENT"@) && place_at(kinds, at as nat).creates && (misfit_at(
        kinds,
        at + 1,
        u32::MAX as nat,
    ) || mark_at(kinds, at + 1, "="@) && misfit_at(kinds, at + 2, u32::MAX as nat))
    ||| keyword_at(kinds, at, "CHANNEL"@) && keyword_at(kinds, at - 1, "FOR"@) && keyword_at(kinds, at - 2, "LOGS"@) && (
    !word_at(kinds, at + 1) || mark_at(kinds, at + 2, "."@))
    ||| keyword_at(kinds, at, "BY"@) && keyword_at(kinds, at - 1, "GRANTED"@) && !word_at(kinds, at + 1) && !quoted_at(
        kinds,
        at + 1,
    )
}

/// How deep what stands between two brackets is, or in a case.
pub struct LevelView {
    /// The depth of what is around it.
    pub base: nat,
    /// Whether it is a case, which has parts as a list has.
    pub cased: bool,
    /// How much deeper what follows the last comma and the last `AND` or `OR` is.
    pub now: nat,
    /// How much deeper what follows the last comma is, up to the last `AND` or `OR`.
    pub ended: nat,
    /// How much deeper what precedes the last comma is.
    pub peak: nat,
    /// Whether the right side of an operator behind the last comma goes on over all others.
    pub greedy: bool,
    /// Whether the next `AND` is that of a `BETWEEN`.
    pub between: bool,
}

/// How deep a position of a text is.
pub struct ShapeView {
    pub level: LevelView,
    /// The levels around the open brackets and cases.
    pub outer: Seq<LevelView>,
    /// What no comma ends: operators between queries, statements in statements, and types in types.
    pub lasting: nat,
    /// Whether a procedure has begun, in which a semicolon ends no more than a comma.
    pub procedure: bool,
}

pub open spec fn larger(a: nat, b: nat) -> nat {
    if a < b {
        b
    } else {
        a
    }
}

/// How much deeper the deepest part of a level is.
pub open spec fn deepest(level: LevelView) -> nat {
    larger(larger(level.now, level.ended), level.peak)
}

pub open spec fn level_at(base: nat, cased: bool) -> LevelView {
    LevelView { base, cased, now: 0, ended: 0, peak: 0, greedy: false, between: false }
}

pub open spec fn fresh() -> ShapeView {
    ShapeView { level: level_at(0, false), outer: Seq::empty(), lasting: 0, procedure: false }
}

/// Whether a shape keeps to the limit.
pub open spec fn shallow(shape: ShapeView) -> bool {
    shape.level.base + deepest(shape.level) + shape.lasting <= MAX_DEPTH
}

/// Whether a token is a value: a name that is no keyword, a number, a parameter or a text.
pub open spec fn operand(kind: TokenKindView) -> bool {
    match kind {
        TokenKindView::Word(keyword) => keyword == "NoKeyword"@,
        TokenKindView::Mark(mark) => mark == "."@ || mark.len() > 0 && mark[0] == '\'',
        _ => true,
    }
}

/// Whether the token at a position stands before what it is of.
pub open spec fn leads(kinds: Seq<TokenKindView>, at: int) -> bool {
    at == 0 || !operand(kinds[at - 1]) && !closes(kinds[at - 1])
}

/// Whether the operator at a position has a right side that goes on over all others.
pub open spec fn goes_on(kinds: Seq<TokenKindView>, at: int) -> bool {
    ||| keyword_at(kinds, at, "DISTINCT"@) && (keyword_at(kinds, at - 1, "IS"@) || keyword_at(kinds, at - 1, "NOT"@))
    ||| mark_at(kinds, at, "->"@)
    ||| mark_at(kinds, at, "->>"@)
    ||| mark_at(kinds, at, "#>"@)
    ||| mark_at(kinds, at, "#>>"@)
    ||| mark_at(kinds, at, "@>"@)
    ||| mark_at(kinds, at, "<@"@)
    ||| mark_at(kinds, at, "#-"@)
    ||| mark_at(kinds, at, "@?"@)
    ||| mark_at(kinds, at, "@@"@)
}

/// How much deeper what follows the token at a position is.
pub open spec fn weight(kinds: Seq<TokenKindView>, at: int) -> nat {
    match kinds[at] {
        TokenKindView::Word(keyword) => if keyword == "NoKeyword"@ {
            0
        } else if keyword == "NOT"@ || keyword == "PRIOR"@ {
            SIGN_DEPTH as nat
        } else if keyword == "INTERVAL"@ {
            INTERVAL_DEPTH as nat
        } else {
            1
        },
        TokenKindView::Mark(mark) => if operand(kinds[at]) {
            0
        } else if leads(kinds, at) {
            SIGN_DEPTH as nat
        } else {
            1
        },
        _ => 0,
    }
}

/// Whether the brackets that open at a position make an array type of what they follow.
pub open spec fn array_type_at(kinds: Seq<TokenKindView>, at: int) -> bool {
    &&& mark_at(kinds, at, "["@)
    &&& mark_at(kinds, at + 1, "]"@)
    &&& at > 0
    &&& !keyword_at(kinds, at - 1, "ARRAY"@)
    &&& !mark_at(kinds, at - 1, ","@)
    &&& !opens(kinds[at - 1])
}

/// How much deeper what follows the token at a position is up to the end of its statement, whatever
/// commas it has.
pub open spec fn lasting_weight(kinds: Seq<TokenKindView>, at: int) -> nat {
    if keyword_at(kinds, at, "EXPLAIN"@) || keyword_at(kinds, at, "DESCRIBE"@) || keyword_at(kinds, at, "PREPARE"@)
        || keyword_at(kinds, at, "PROCEDURE"@) || keyword_at(kinds, at, "INSERT"@) {
        STATEMENT_DEPTH as nat
    } else if keyword_at(kinds, at, "UNION"@) || keyword_at(kinds, at, "EXCEPT"@) || keyword_at(kinds, at, "INTERSECT"@)
        || keyword_at(kinds, at, "PIVOT"@) || keyword_at(kinds, at, "UNPIVOT"@) || array_type_at(kinds, at) || mark_at(
        kinds,
        at,
        "<"@,
    ) && (keyword_at(kinds, at - 1, "ARRAY"@) || keyword_at(kinds, at - 1, "STRUCT"@)) {
        QUERY_DEPTH as nat
    } else {
        0
    }
}

pub open spec fn opens(kind: TokenKindView) -> bool {
    kind == TokenKindView::Mark("("@) || kind == TokenKindView::Mark("["@) || kind == TokenKindView::Mark("{"@)
}

pub open spec fn closes(kind: TokenKindView) -> bool {
    kind == TokenKindView::Mark(")"@) || kind == TokenKindView::Mark("]"@) || kind == TokenKindView::Mark("}"@)
}

/// Whether a token ends a part of a case and begins the next one.
pub open spec fn divides(kind: TokenKindView) -> bool {
    kind == TokenKindView::Word("WHEN"@) || kind == TokenKindView::Word("THEN"@) || kind == TokenKindView::Word("ELSE"@)
}

/// The depth from which on something begins that the parser does before it has finished what precedes.
pub open spec fn depth_inside(level: LevelView) -> nat {
    if level.greedy {
        level.base + level.now + BRACKET_DEPTH as nat
    } else {
        level.base + level.now * (LEAD_DEPTH as nat) + BRACKET_DEPTH as nat
    }
}

/// Whether a value may end before a position: without that, a keyword there is a name.
pub open spec fn ends_value(kinds: Seq<TokenKindView>, at: int) -> bool {
    at > 0 && match kinds[at - 1] {
        TokenKindView::Word(keyword) => keyword == "NoKeyword"@ || keyword == "NULL"@ || keyword == "TRUE"@ || keyword
            == "FALSE"@ || keyword == "END"@,
        TokenKindView::Mark(mark) => mark != "."@ && operand(kinds[at - 1]) || closes(kinds[at - 1]),
        _ => true,
    }
}

/// Whether a token joins two conditions.
pub open spec fn joins(kind: TokenKindView) -> bool {
    kind == TokenKindView::Word("AND"@) || kind == TokenKindView::Word("OR"@)
}

/// The shape behind the token at a position.
pub open spec fn shape_after(kinds: Seq<TokenKindView>, at: nat, shape: ShapeView) -> ShapeView {
    let kind = kinds[at as int];
    let level = shape.level;
    let lasting = shape.lasting + lasting_weight(kinds, at as int);
    if kind == TokenKindView::Mark(";"@) {
        if shape.procedure {
            ShapeView { level: level_at(0, false), outer: Seq::empty(), ..shape }
        } else {
            fresh()
        }
    } else if kind == TokenKindView::Mark(","@) || level.cased && divides(kind) && ends_value(kinds, at as int) {
        ShapeView { level: LevelView { peak: deepest(level), ..level_at(level.base, level.cased) }, ..shape }
    } else if opens(kind) || kind == TokenKindView::Word("CASE"@) {
        ShapeView {
            level: level_at(depth_inside(level), kind is Word),
            outer: shape.outer.push(level),
            lasting,
            ..shape
        }
    } else if (closes(kind) || level.cased && kind == TokenKindView::Word("END"@)) && shape.outer.len() > 0 {
        let around = shape.outer.last();
        ShapeView {
            level: LevelView { now: larger(around.now, deepest(level) + BRACKET_DEPTH as nat), ..around },
            outer: shape.outer.drop_last(),
            ..shape
        }
    } else if joins(kind) && ends_value(kinds, at as int) && !level.greedy && !level.between {
        ShapeView {
            level: LevelView { now: JOINED_DEPTH as nat, ended: larger(level.now, level.ended) + 1, ..level },
            ..shape
        }
    } else {
        ShapeView {
            level: LevelView {
                now: if goes_on(kinds, at as int) {
                    (depth_inside(level) - level.base) as nat
                } else if level.greedy {
                    level.now + weight(kinds, at as int) * (LEAD_DEPTH as nat)
                } else {
                    level.now + weight(kinds, at as int)
                },
                greedy: level.greedy || goes_on(kinds, at as int),
                between: kind == TokenKindView::Word("BETWEEN"@) || level.between && !(joins(kind) && ends_value(
                    kinds,
                    at as int,
                )),
                ..level
            },
            lasting,
            procedure: shape.procedure || place_at(kinds, at).makes && kind == TokenKindView::Word("PROCEDURE"@),
            ..shape
        }
    }
}

/// Whether the tokens from `at` on keep to the limit.
pub open spec fn shallow_from(kinds: Seq<TokenKindView>, at: nat, shape: ShapeView) -> bool
    decreases kinds.len() - at,
{
    if at >= kinds.len() {
        true
    } else {
        let after = shape_after(kinds, at, shape);
        shallow(after) && shallow_from(kinds, at + 1, after)
    }
}

/// Whether the parser can be given a text of these tokens.
pub open spec fn parseable(tokens: Seq<TokenView>) -> bool {
    let kinds = significant(tokens);
    &&& forall|i: int| 0 <= i < kinds.len() ==> !#[trigger] fatal_at(kinds, i)
    &&& shallow_from(kinds, 0, fresh())
}

/// Whether the parser can be given a text. It refuses a text without tokens by itself.
pub open spec fn suitable(sql: Seq<char>) -> bool {
    match sql_tokens(sql) {
        Ok(tokens) => parseable(tokens),
        Err(_) => true,
    }
}

proof fn lemma_significant_push(tokens: Seq<TokenView>, at: nat)
    requires
        at < tokens.len(),
    ensures
        significant(tokens.take(at as int + 1)) == (if tokens[at as int].kind is Space {
            significant(tokens.take(at as int))
        } else {
            significant(tokens.take(at as int)).push(tokens[at as int].kind)
        }),
{
    let longer = tokens.take(at as int + 1);
    assert(longer.drop_last() =~= tokens.take(at as int));
    assert(longer.last() == tokens[at as int]);
}

/// The tokens that are no white space.
fn take_significant<'a>(tokens: &'a Vec<SqlToken>) -> (kinds: Vec<&'a TokenKind>)
    ensures
        views(kinds@) == significant(views(tokens@)),
{
    let mut kinds: Vec<&'a TokenKind> = Vec::new();
    let ghost all = views(tokens@);
    let mut index: usize = 0;
    assert(views(kinds@) =~= significant(all.take(0)));
    while index < tokens.len()
        invariant
            all == views(tokens@),
            index <= tokens@.len(),
            views(kinds@) == significant(all.take(index as int)),
        decreases tokens@.len() - index,
    {
        proof {
            lemma_significant_push(all, index as nat);
            assert(all[index as int] == tokens@[index as int]@);
        }
        match &tokens[index].kind {
            TokenKind::Space => {},
            _ => kinds.push(&tokens[index].kind),
        }
        index = index + 1;
    }
    assert(all.take(index as int) =~= all);
    kinds
}

fn is_keyword(kinds: &Vec<&TokenKind>, at: usize, keyword: &str) -> (result: bool)
    ensures
        result == keyword_at(views(kinds@), at as int, keyword@),
{
    if at < kinds.len() {
        assert(views(kinds@)[at as int] == kinds@[at as int]@);
        match kinds[at] {
            TokenKind::Word(word) => same_text(word.as_str(), keyword),
            _ => false,
        }
    } else {
        false
    }
}

/// Whether a keyword stands so many tokens before a position.
fn is_keyword_back(kinds: &Vec<&TokenKind>, at: usize, back: usize, keyword: &str) -> (result: bool)
    ensures
        result == keyword_at(views(kinds@), at - back, keyword@),
{
    at >= back && is_keyword(kinds, at - back, keyword)
}

fn is_mark(kinds: &Vec<&TokenKind>, at: usize, mark: &str) -> (result: bool)
    ensures
        result == mark_at(views(kinds@), at as int, mark@),
{
    if at < kinds.len() {
        assert(views(kinds@)[at as int] == kinds@[at as int]@);
        match kinds[at] {
            TokenKind::Mark(text) => same_text(text.as_str(), mark),
            _ => false,
        }
    } else {
        false
    }
}

fn is_word(kinds: &Vec<&TokenKind>, at: usize) -> (result: bool)
    ensures
        result == word_at(views(kinds@), at as int),
{
    if at < kinds.len() {
        assert(views(kinds@)[at as int] == kinds@[at as int]@);
        match kinds[at] {
            TokenKind::Word(_) => true,
            _ => false,
        }
    } else {
        false
    }
}

fn is_quoted(kinds: &Vec<&TokenKind>, at: usize) -> (result: bool)
    ensures
        result == quoted_at(views(kinds@), at as int),
{
    if at < kinds.len() {
        assert(views(kinds@)[at as int] == kinds@[at as int]@);
        match kinds[at] {
            TokenKind::Mark(text) => {
                let chars = chars_of(text.as_str());
                chars.len() > 0 && chars[0] == '\''
            },
            _ => false,
        }
    } else {
        false
    }
}

fn is_misfit(kinds: &Vec<&TokenKind>, at: usize, max: u64) -> (result: bool)
    ensures
        result == misfit_at(views(kinds@), at as int, max as nat),
{
    if at < kinds.len() {
        assert(views(kinds@)[at as int] == kinds@[at as int]@);
        match kinds[at] {
            TokenKind::Number(text) => parse_unsigned(text.as_str(), max).is_none(),
            _ => false,
        }
    } else {
        false
    }
}

fn is_word_of(kind: &TokenKind, keyword: &str) -> (result: bool)
    ensures
        result == (kind@ == TokenKindView::Word(keyword@)),
{
    match kind {
        TokenKind::Word(word) => same_text(word.as_str(), keyword),
        _ => false,
    }
}

fn is_mark_of(kind: &TokenKind, mark: &str) -> (result: bool)
    ensures
        result == (kind@ == TokenKindView::Mark(mark@)),
{
    match kind {
        TokenKind::Mark(text) => same_text(text.as_str(), mark),
        _ => false,
    }
}

fn is_modifier(kind: &TokenKind) -> (result: bool)
    ensures
        result == modifies(kind@),
{
    is_word_of(kind, "OR") || is_word_of(kind, "REPLACE") || is_word_of(kind, "ALTER") || is_word_of(kind, "LOCAL")
        || is_word_of(kind, "GLOBAL") || is_word_of(kind, "TRANSIENT") || is_word_of(kind, "TEMP") || is_word_of(
        kind,
        "TEMPORARY",
    )
}

impl Place {
    fn first() -> (place: Place)
        ensures
            place == outset(),
    {
        Place { starts: true, explains: false, formats: false, creates: false, prepares: false, makes: false }
    }

    /// The place behind a token.
    fn behind(self, kind: &TokenKind) -> (place: Place)
        ensures
            place == place_after(self, kind@),
    {
        if is_mark_of(kind, ";") {
            return Place::first();
        }
        let explains = self.formats || self.starts && (is_word_of(kind, "EXPLAIN") || is_word_of(kind, "DESCRIBE"))
            || self.explains && (is_word_of(kind, "ANALYZE") || is_word_of(kind, "VERBOSE"));
        let creates = self.starts && is_word_of(kind, "CREATE");
        Place {
            starts: explains || self.prepares && is_word_of(kind, "AS") || self.creates && is_word_of(kind, "BEGIN"),
            explains,
            formats: self.explains && is_word_of(kind, "FORMAT"),
            creates: self.creates || creates,
            prepares: self.prepares || self.starts && is_word_of(kind, "PREPARE"),
            makes: creates || self.makes && is_modifier(kind),
        }
    }
}

fn is_fatal(kinds: &Vec<&TokenKind>, at: usize, place: Place) -> (result: bool)
    requires
        at < kinds@.len(),
        place == place_at(views(kinds@), at as nat),
    ensures
        result == fatal_at(views(kinds@), at as int),
{
    let total: usize = kinds.len();
    let next: usize = if total - at > 1 {
        at + 1
    } else {
        total
    };
    let second: usize = if total - at > 2 {
        at + 2
    } else {
        total
    };
    if is_keyword(kinds, at, "REPLACE") && place.starts {
        return true;
    }
    if (is_mark(kinds, at, ";") || is_mark(kinds, at, ",") || is_opening(kinds, at) || is_closing(kinds, at)) && at > 0 && (
    is_mark(kinds, at - 1, ".") || is_mark(kinds, at - 1, "(") && is_keyword_back(kinds, at, 2, "OPERATOR")) {
        return true;
    }
    if is_keyword(kinds, at, "TOP") && is_misfit(kinds, next, u64::MAX) {
        return true;
    }
    if is_keyword(kinds, at, "AUTO_INCREMENT") && place.creates && (is_misfit(
        kinds,
        next,
        u32::MAX as u64,
    ) || is_mark(kinds, next, "=") && is_misfit(kinds, second, u32::MAX as u64)) {
        return true;
    }
    if is_keyword(kinds, at, "CHANNEL") && is_keyword_back(kinds, at, 1, "FOR") && is_keyword_back(kinds, at, 2, "LOGS")
        && (!is_word(kinds, next) || is_mark(kinds, second, ".")) {
        return true;
    }
    is_keyword(kinds, at, "BY") && is_keyword_back(kinds, at, 1, "GRANTED") && !is_word(kinds, next) && !is_quoted(
        kinds,
        next,
    )
}

fn larger_of(a: usize, b: usize) -> (result: usize)
    ensures
        result == larger(a as nat, b as nat),
{
    if a < b {
        b
    } else {
        a
    }
}

/// How deep what stands between two brackets is, or in a case.
struct Level {
    base: usize,
    cased: bool,
    now: usize,
    ended: usize,
    peak: usize,
    greedy: bool,
    between: bool,
}

impl Copy for Level {

}

impl Clone for Level {
    fn clone(&self) -> (result: Self)
        ensures
            result == *self,
    {
        *self
    }
}

impl View for Level {
    type V = LevelView;

    closed spec fn view(&self) -> LevelView {
        LevelView {
            base: self.base as nat,
            cased: self.cased,
            now: self.now as nat,
            ended: self.ended as nat,
            peak: self.peak as nat,
            greedy: self.greedy,
            between: self.between,
        }
    }
}

impl Level {
    /// Whether no part of the level is too deep.
    spec fn wf(self) -> bool {
        self.base <= MAX_DEPTH && self.now <= MAX_DEPTH && self.ended <= MAX_DEPTH && self.peak <= MAX_DEPTH
    }

    fn at(base: usize, cased: bool) -> (level: Level)
        ensures
            level@ == level_at(base as nat, cased),
    {
        Level { base, cased, now: 0, ended: 0, peak: 0, greedy: false, between: false }
    }

    fn inside(&self) -> (result: usize)
        requires
            self.wf(),
        ensures
            result == depth_inside(self@),
            result <= MAX_DEPTH + MAX_DEPTH * LEAD_DEPTH + BRACKET_DEPTH,
            self.base <= result,
    {
        if self.greedy {
            self.base + self.now + BRACKET_DEPTH
        } else {
            self.base + self.now * LEAD_DEPTH + BRACKET_DEPTH
        }
    }

    fn deepest_of(&self) -> (result: usize)
        ensures
            result == deepest(self@),
    {
        larger_of(larger_of(self.now, self.ended), self.peak)
    }
}

/// How deep a position of a text is.
struct Shape {
    level: Level,
    outer: Vec<Level>,
    lasting: usize,
    procedure: bool,
}

impl View for Shape {
    type V = ShapeView;

    closed spec fn view(&self) -> ShapeView {
        ShapeView {
            level: self.level@,
            outer: views(self.outer@),
            lasting: self.lasting as nat,
            procedure: self.procedure,
        }
    }
}

impl Shape {
    /// Whether no part of the shape is too deep.
    spec fn wf(self) -> bool {
        &&& self.level.wf()
        &&& self.lasting <= MAX_DEPTH
        &&& forall|i: int| 0 <= i < self.outer@.len() ==> (#[trigger] self.outer@[i]).wf()
    }

    fn new() -> (shape: Shape)
        ensures
            shape.wf(),
            shape@ == fresh(),
    {
        let shape = Shape { level: Level::at(0, false), outer: Vec::new(), lasting: 0, procedure: false };
        assert(shape@.outer =~= fresh().outer);
        shape
    }
}

fn is_operand(kind: &TokenKind) -> (result: bool)
    ensures
        result == operand(kind@),
{
    match kind {
        TokenKind::Word(keyword) => same_text(keyword.as_str(), "NoKeyword"),
        TokenKind::Mark(mark) => {
            let chars = chars_of(mark.as_str());
            same_text(mark.as_str(), ".") || chars.len() > 0 && chars[0] == '\''
        },
        _ => true,
    }
}

fn is_opening(kinds: &Vec<&TokenKind>, at: usize) -> (result: bool)
    requires
        at < kinds@.len(),
    ensures
        result == opens(views(kinds@)[at as int]),
{
    is_mark(kinds, at, "(") || is_mark(kinds, at, "[") || is_mark(kinds, at, "{")
}

fn is_closing(kinds: &Vec<&TokenKind>, at: usize) -> (result: bool)
    requires
        at < kinds@.len(),
    ensures
        result == closes(views(kinds@)[at as int]),
{
    is_mark(kinds, at, ")") || is_mark(kinds, at, "]") || is_mark(kinds, at, "}")
}

fn is_going_on(kinds: &Vec<&TokenKind>, at: usize) -> (result: bool)
    requires
        at < kinds@.len(),
    ensures
        result == goes_on(views(kinds@), at as int),
{
    is_keyword(kinds, at, "DISTINCT") && (is_keyword_back(kinds, at, 1, "IS") || is_keyword_back(
        kinds,
        at,
        1,
        "NOT",
    )) || is_mark(kinds, at, "->") || is_mark(kinds, at, "->>") || is_mark(kinds, at, "#>") || is_mark(kinds, at, "#>>")
        || is_mark(kinds, at, "@>") || is_mark(kinds, at, "<@") || is_mark(kinds, at, "#-") || is_mark(kinds, at, "@?")
        || is_mark(kinds, at, "@@")
}

fn is_array_type(kinds: &Vec<&TokenKind>, at: usize) -> (result: bool)
    requires
        at < kinds@.len(),
    ensures
        result == array_type_at(views(kinds@), at as int),
{
    kinds.len() - at > 1 && is_mark(kinds, at, "[") && is_mark(kinds, at + 1, "]") && at > 0 && !is_keyword(
        kinds,
        at - 1,
        "ARRAY",
    ) && !is_mark(kinds, at - 1, ",") && !is_opening(kinds, at - 1)
}

fn is_value_end(kinds: &Vec<&TokenKind>, at: usize) -> (result: bool)
    requires
        at < kinds@.len(),
    ensures
        result == ends_value(views(kinds@), at as int),
{
    if at == 0 {
        return false;
    }
    assert(views(kinds@)[at - 1] == kinds@[at - 1]@);
    match kinds[at - 1] {
        TokenKind::Word(keyword) => same_text(keyword.as_str(), "NoKeyword") || same_text(keyword.as_str(), "NULL") || same_text(
            keyword.as_str(),
            "TRUE",
        ) || same_text(keyword.as_str(), "FALSE") || same_text(keyword.as_str(), "END"),
        TokenKind::Mark(mark) => !same_text(mark.as_str(), ".") && is_operand(kinds[at - 1]) || is_closing(kinds, at - 1),
        _ => true,
    }
}

fn is_divider(kind: &TokenKind) -> (result: bool)
    ensures
        result == divides(kind@),
{
    is_word_of(kind, "WHEN") || is_word_of(kind, "THEN") || is_word_of(kind, "ELSE")
}

fn weigh(kinds: &Vec<&TokenKind>, at: usize) -> (result: usize)
    requires
        at < kinds@.len(),
    ensures
        result == weight(views(kinds@), at as int),
        result <= MAX_DEPTH,
{
    assert(views(kinds@)[at as int] == kinds@[at as int]@);
    match kinds[at] {
        TokenKind::Word(keyword) => if same_text(keyword.as_str(), "NoKeyword") {
            0
        } else if same_text(keyword.as_str(), "NOT") || same_text(keyword.as_str(), "PRIOR") {
            SIGN_DEPTH
        } else if same_text(keyword.as_str(), "INTERVAL") {
            INTERVAL_DEPTH
        } else {
            1
        },
        TokenKind::Mark(_) => if is_operand(kinds[at]) {
            0
        } else {
            if at > 0 {
                assert(views(kinds@)[at - 1] == kinds@[at - 1]@);
            }
            if at == 0 || !is_operand(kinds[at - 1]) && !is_closing(kinds, at - 1) {
                SIGN_DEPTH
            } else {
                1
            }
        },
        _ => 0,
    }
}

fn weigh_lasting(kinds: &Vec<&TokenKind>, at: usize) -> (result: usize)
    requires
        at < kinds@.len(),
    ensures
        result == lasting_weight(views(kinds@), at as int),
        result <= MAX_DEPTH,
{
    if is_keyword(kinds, at, "EXPLAIN") || is_keyword(kinds, at, "DESCRIBE") || is_keyword(kinds, at, "PREPARE")
        || is_keyword(kinds, at, "PROCEDURE") || is_keyword(kinds, at, "INSERT") {
        STATEMENT_DEPTH
    } else if is_keyword(kinds, at, "UNION") || is_keyword(kinds, at, "EXCEPT") || is_keyword(kinds, at, "INTERSECT")
        || is_keyword(kinds, at, "PIVOT") || is_keyword(kinds, at, "UNPIVOT") || is_array_type(kinds, at) || is_mark(
        kinds,
        at,
        "<",
    ) && (is_keyword_back(kinds, at, 1, "ARRAY") || is_keyword_back(kinds, at, 1, "STRUCT")) {
        QUERY_DEPTH
    } else {
        0
    }
}

/// The shape behind the token at a position; none where it is too deep.
fn follow(kinds: &Vec<&TokenKind>, at: usize, place: Place, shape: Shape) -> (result: Option<Shape>)
    requires
        at < kinds@.len(),
        place == place_at(views(kinds@), at as nat),
        shape.wf(),
    ensures
        match result {
            Some(after) => after.wf() && after@ == shape_after(views(kinds@), at as nat, shape@) && shallow(after@),
            None => !shallow(shape_after(views(kinds@), at as nat, shape@)),
        },
{
    let mut shape = shape;
    let ghost before = shape@;
    let ghost start = shape.outer@;
    assert(views(kinds@)[at as int] == kinds@[at as int]@);
    if is_mark(kinds, at, ";") && !shape.procedure {
        return Some(Shape::new());
    }
    let level = shape.level;
    let joined = (is_keyword(kinds, at, "AND") || is_keyword(kinds, at, "OR")) && is_value_end(kinds, at);
    if is_mark(kinds, at, ";") {
        shape.level = Level::at(0, false);
        shape.outer = Vec::new();
        assert(shape@.outer =~= Seq::<LevelView>::empty());
    } else if is_mark(kinds, at, ",") || level.cased && is_divider(kinds[at]) && is_value_end(kinds, at) {
        shape.level = Level { peak: level.deepest_of(), ..Level::at(level.base, level.cased) };
    } else if is_opening(kinds, at) || is_keyword(kinds, at, "CASE") {
        shape.outer.push(level);
        shape.level = Level::at(level.inside(), is_keyword(kinds, at, "CASE"));
        shape.lasting = shape.lasting + weigh_lasting(kinds, at);
        assert(shape@.outer =~= before.outer.push(before.level));
        assert forall|i: int| 0 <= i < shape.outer@.len() implies (#[trigger] shape.outer@[i]).wf() by {
            if i < start.len() {
                assert(shape.outer@[i] == start[i]);
            }
        }
    } else if (is_closing(kinds, at) || level.cased && is_keyword(kinds, at, "END")) && shape.outer.len() > 0 {
        let around = shape.outer[shape.outer.len() - 1];
        assert(around@ == before.outer.last());
        shape.outer.pop();
        shape.level = Level { now: larger_of(around.now, level.deepest_of() + BRACKET_DEPTH), ..around };
        assert(shape@.outer =~= before.outer.drop_last());
        assert forall|i: int| 0 <= i < shape.outer@.len() implies (#[trigger] shape.outer@[i]).wf() by {
            assert(shape.outer@[i] == start[i]);
        }
    } else if joined && !level.greedy && !level.between {
        shape.level = Level { now: JOINED_DEPTH, ended: larger_of(level.now, level.ended) + 1, ..level };
    } else {
        let weight: usize = weigh(kinds, at);
        let greedy = is_going_on(kinds, at);
        let now: usize = if greedy {
            level.inside() - level.base
        } else if level.greedy {
            level.now + weight * LEAD_DEPTH
        } else {
            level.now + weight
        };
        shape.level = Level {
            now,
            greedy: level.greedy || greedy,
            between: is_keyword(kinds, at, "BETWEEN") || level.between && !joined,
            ..level
        };
        shape.lasting = shape.lasting + weigh_lasting(kinds, at);
        shape.procedure = shape.procedure || place.makes && is_keyword(kinds, at, "PROCEDURE");
    }
    assert(shape@ == shape_after(views(kinds@), at as nat, before));
    if shape.level.base + shape.level.deepest_of() + shape.lasting <= MAX_DEPTH {
        Some(shape)
    } else {
        None
    }
}

/// Whether the parser can be given a text of these tokens.
pub fn is_parseable(tokens: &Vec<SqlToken>) -> (result: bool)
    ensures
        result == parseable(views(tokens@)),
{
    let kinds = take_significant(tokens);
    let ghost all = views(kinds@);
    let mut shape = Shape::new();
    let mut place = Place::first();
    let mut index: usize = 0;
    while index < kinds.len()
        invariant
            all == views(kinds@),
            all == significant(views(tokens@)),
            index <= kinds@.len(),
            shape.wf(),
            shallow_from(all, index as nat, shape@) == shallow_from(all, 0, fresh()),
            place == place_at(all, index as nat),
            forall|i: int| 0 <= i < index ==> !#[trigger] fatal_at(all, i),
        decreases kinds@.len() - index,
    {
        if is_fatal(&kinds, index, place) {
            return false;
        }
        match follow(&kinds, index, place, shape) {
            Some(after) => {
                shape = after;
            },
            None => return false,
        }
        assert(all[index as int] == kinds@[index as int]@);
        place = place.behind(kinds[index]);
        index = index + 1;
    }
    true
}

} // verus!
