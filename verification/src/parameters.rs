//! Positional SQL values, bound without interpreting data as SQL syntax.

use vstd::prelude::*;
use crate::error::{outcome, Error, ErrorView};
use crate::float::{
    compute_text, computes, finite, floats, is_finite, notation, FloatReply, FloatTask, FloatTaskView, Floats,
};
use crate::slice::lemma_byte_count;
use crate::text::{
    all_digits, byte_count, chars_of, count_bytes, digits_value, is_digit, join3, join_all, joined, lemma_views_push,
    parse_unsigned, signed_decimal, signed_decimal_text, string_of, views,
};
use crate::tokens::{placed_at, sql_tokens, tokenize, Cursor, SqlToken, TokenKind, TokenView};
use crate::value::{Value, ValueView};
use crate::vector::Vector;

verus! {

broadcast use {vstd::string::group_string_axioms, lemma_views_push};

pub const MAX_PARAMETERS: usize = 65535;

pub const MAX_BOUND_SQL_BYTES: usize = 33554432;

pub open spec fn misuse(message: Seq<char>) -> ErrorView {
    ErrorView::InvalidQuery(message)
}

/// The error of a request that cannot be bound.
pub fn invalid(message: &str) -> (error: Error)
    ensures
        error@ == misuse(message@),
{
    Error::InvalidQuery(message.to_owned())
}

pub open spec fn too_long() -> ErrorView {
    misuse("bound SQL exceeds 32 MiB; split the request into batches"@)
}

pub open spec fn misplaced() -> ErrorView {
    misuse("invalid SQL parameter location"@)
}

/// The text with more text at its end, unless that makes it too long.
pub open spec fn appended(output: Seq<char>, text: Seq<char>) -> Result<Seq<char>, ErrorView> {
    if byte_count(output) + byte_count(text) > MAX_BOUND_SQL_BYTES {
        Err(too_long())
    } else {
        Ok(output + text)
    }
}

/// Appends text, unless that makes the output too long.
pub fn append(output: &mut String, text: &str) -> (result: Result<(), Error>)
    ensures
        match result {
            Ok(_) => appended(old(output)@, text@) == Ok::<Seq<char>, ErrorView>(final(output)@),
            Err(error) => appended(old(output)@, text@) == Err::<Seq<char>, ErrorView>(error@) && final(output)@ == old(
                output,
            )@,
        },
{
    let size: usize = count_bytes(output.as_str());
    let more: usize = count_bytes(text);
    if size > MAX_BOUND_SQL_BYTES || more > MAX_BOUND_SQL_BYTES - size {
        return Err(invalid("bound SQL exceeds 32 MiB; split the request into batches"));
    }
    output.append(text);
    Ok(())
}

/// The text from `from` on with each mark written twice, after `done`.
pub open spec fn doubled_from(text: Seq<char>, mark: char, from: nat, done: Seq<char>) -> Seq<char>
    decreases text.len() - from,
{
    if from >= text.len() {
        done
    } else if text[from as int] == mark {
        doubled_from(text, mark, from + 1, done.push(mark).push(mark))
    } else {
        doubled_from(text, mark, from + 1, done.push(text[from as int]))
    }
}

/// The text with each mark written twice.
pub open spec fn doubled(text: Seq<char>, mark: char) -> Seq<char> {
    doubled_from(text, mark, 0, Seq::empty())
}

/// Writes each mark of a text twice.
pub fn double(text: &str, mark: char) -> (result: String)
    ensures
        result@ == doubled(text@, mark),
{
    let chars = chars_of(text);
    let mut out = String::new();
    let mut index: usize = 0;
    while index < chars.len()
        invariant
            chars@ == text@,
            index <= chars@.len(),
            doubled_from(text@, mark, index as nat, out@) == doubled(text@, mark),
        decreases chars@.len() - index,
    {
        if chars[index] == mark {
            out.push(mark);
        }
        out.push(chars[index]);
        index = index + 1;
    }
    out
}

/// The notations of a vector's elements that read back as floating-point numbers.
pub open spec fn element_sources(floats: Floats, elements: Seq<u32>) -> Seq<Seq<char>> {
    elements.map_values(|element: u32| notation(floats, FloatTaskView::ElementSourceText(element)))
}

/// The SQL that denotes a value.
pub open spec fn written_value(value: ValueView, floats: Floats) -> Result<Seq<char>, ErrorView> {
    match value {
        ValueView::Null => Ok("NULL"@),
        ValueView::Integer(value) => if value == i64::MIN {
            Ok("-9223372036854775807 - 1"@)
        } else {
            Ok(signed_decimal_text(value as int))
        },
        ValueView::Float(bits) => if finite(bits) {
            Ok(notation(floats, FloatTaskView::SourceText(bits)))
        } else {
            Err(misuse("SQL parameters must be finite"@))
        },
        ValueView::Boolean(value) => Ok(if value {
            "TRUE"@
        } else {
            "FALSE"@
        }),
        ValueView::Text(text) => Ok("'"@ + doubled(text, '\'') + "'"@),
        ValueView::Vector(elements) => Ok("ARRAY["@ + joined(element_sources(floats, elements), ","@) + "]"@),
    }
}

pub(crate) fn element_list<F: Fn(FloatTask) -> FloatReply>(f: &F, vector: &Vector) -> (text: String)
    requires
        computes(*f),
    ensures
        text@ == joined(element_sources(floats(*f), vector@), ","@),
{
    let elements = vector.as_slice();
    let mut parts: Vec<String> = Vec::new();
    let mut index: usize = 0;
    while index < elements.len()
        invariant
            computes(*f),
            index <= elements@.len(),
            parts@.len() == index,
            forall|i: int|
                0 <= i < index ==> (#[trigger] parts@[i])@ == notation(
                    floats(*f),
                    FloatTaskView::ElementSourceText(elements@[i]),
                ),
        decreases elements@.len() - index,
    {
        parts.push(compute_text(f, FloatTask::ElementSourceText(elements[index])));
        index = index + 1;
    }
    assert(views(parts@) =~= element_sources(floats(*f), vector@));
    join_all(&parts, ",")
}

/// The SQL that denotes a value.
pub fn literal<F: Fn(FloatTask) -> FloatReply>(f: &F, value: &Value) -> (result: Result<String, Error>)
    requires
        computes(*f),
    ensures
        outcome(result) == written_value(value@, floats(*f)),
{
    match value {
        Value::Null => Ok("NULL".to_owned()),
        Value::Integer(value) => {
            if *value == i64::MIN {
                Ok("-9223372036854775807 - 1".to_owned())
            } else {
                Ok(signed_decimal(*value))
            }
        },
        Value::Float(bits) => {
            if is_finite(*bits) {
                Ok(compute_text(f, FloatTask::SourceText(*bits)))
            } else {
                Err(invalid("SQL parameters must be finite"))
            }
        },
        Value::Boolean(value) => {
            if *value {
                Ok("TRUE".to_owned())
            } else {
                Ok("FALSE".to_owned())
            }
        },
        Value::Text(text) => {
            let inner = double(text.as_str(), '\'');
            Ok(join3("'", inner.as_str(), "'"))
        },
        Value::Vector(vector) => {
            let inner = element_list(f, vector);
            Ok(join3("ARRAY[", inner.as_str(), "]"))
        },
    }
}

/// The value that a placeholder stands for, among `count` ones.
pub open spec fn parameter_index(name: Seq<char>, count: nat) -> Option<nat> {
    if name.len() < 2 || name[0] != '$' || !all_digits(name.skip(1)) {
        None
    } else if 1 <= digits_value(name.skip(1)) <= count {
        Some((digits_value(name.skip(1)) - 1) as nat)
    } else {
        None
    }
}

fn find_parameter(name: &str, count: usize) -> (result: Option<usize>)
    ensures
        match result {
            Some(index) => parameter_index(name@, count as nat) == Some(index as nat) && index < count,
            None => parameter_index(name@, count as nat) is None,
        },
{
    let chars = chars_of(name);
    if chars.len() < 2 || chars[0] != '$' {
        return None;
    }
    let digits = string_of(&chars, 1, chars.len());
    assert(digits@ =~= name@.skip(1));
    if chars[1] == '+' {
        assert(!is_digit(name@.skip(1)[0]));
        return None;
    }
    assert(digits@[0] == chars@[1]);
    match parse_unsigned(digits.as_str(), count as u64) {
        Some(number) => if number == 0 {
            None
        } else {
            Some((number - 1) as usize)
        },
        None => None,
    }
}

/// How far a text has been bound.
pub struct BindingView {
    /// The first character that has not been looked at.
    pub cursor: nat,
    /// The first character that has not been copied.
    pub previous: nat,
    pub text: Seq<char>,
    pub used: Seq<bool>,
}

/// The text with one more placeholder bound: what stands before it, and the value in parentheses.
pub open spec fn substituted(output: Seq<char>, before: Seq<char>, value: ValueView, floats: Floats) -> Result<
    Seq<char>,
    ErrorView,
> {
    match appended(output, before) {
        Err(error) => Err(error),
        Ok(output) => match appended(output, "("@) {
            Err(error) => Err(error),
            Ok(output) => match written_value(value, floats) {
                Err(error) => Err(error),
                Ok(text) => match appended(output, text) {
                    Err(error) => Err(error),
                    Ok(output) => appended(output, ")"@),
                },
            },
        },
    }
}

/// The binding after one more token.
pub open spec fn bound_token(
    sql: Seq<char>,
    token: TokenView,
    parameters: Seq<ValueView>,
    floats: Floats,
    state: BindingView,
) -> Result<BindingView, ErrorView> {
    match token.placeholder() {
        None => Ok(state),
        Some(name) => match parameter_index(name, parameters.len()) {
            None => Err(misuse("SQL parameters must use $1..$N with a supplied value"@)),
            Some(index) => match placed_at(sql, token.line as nat, token.column as nat, state.cursor) {
                None => Err(misplaced()),
                Some(start) => if start < state.previous || start + name.len() > sql.len() {
                    Err(misplaced())
                } else {
                    match substituted(
                        state.text,
                        sql.subrange(state.previous as int, start as int),
                        parameters[index as int],
                        floats,
                    ) {
                        Err(error) => Err(error),
                        Ok(text) => Ok(
                            BindingView {
                                cursor: start + 1,
                                previous: start + name.len(),
                                text,
                                used: state.used.update(index as int, true),
                            },
                        ),
                    }
                },
            },
        },
    }
}

/// The binding after the tokens from `from` on.
pub open spec fn bound_tokens(
    sql: Seq<char>,
    tokens: Seq<TokenView>,
    parameters: Seq<ValueView>,
    floats: Floats,
    from: nat,
    state: BindingView,
) -> Result<BindingView, ErrorView>
    decreases tokens.len() - from,
{
    if from >= tokens.len() {
        Ok(state)
    } else {
        match bound_token(sql, tokens[from as int], parameters, floats, state) {
            Err(error) => Err(error),
            Ok(next) => bound_tokens(sql, tokens, parameters, floats, from + 1, next),
        }
    }
}

/// A binding that has not begun.
pub open spec fn unbound(count: nat) -> BindingView {
    BindingView { cursor: 0, previous: 0, text: Seq::empty(), used: Seq::new(count, |i: int| false) }
}

/// A text of which these are the tokens, with its placeholders bound.
pub open spec fn bound_text(sql: Seq<char>, tokens: Seq<TokenView>, parameters: Seq<ValueView>, floats: Floats) -> Result<
    Seq<char>,
    ErrorView,
> {
    match bound_tokens(sql, tokens, parameters, floats, 0, unbound(parameters.len())) {
        Err(error) => Err(error),
        Ok(state) => if exists|i: int| 0 <= i < state.used.len() && !#[trigger] state.used[i] {
            Err(misuse("every supplied SQL parameter must be referenced"@))
        } else {
            appended(state.text, sql.skip(state.previous as int))
        },
    }
}

/// A text with its placeholders bound.
pub open spec fn bound(sql: Seq<char>, parameters: Seq<ValueView>, floats: Floats) -> Result<Seq<char>, ErrorView> {
    if byte_count(sql) > MAX_BOUND_SQL_BYTES {
        Err(too_long())
    } else if parameters.len() > MAX_PARAMETERS {
        Err(misuse("at most 65535 SQL parameters are supported"@))
    } else {
        match sql_tokens(sql) {
            Err(text) => Err(ErrorView::Parse(text)),
            Ok(tokens) => bound_text(sql, tokens, parameters, floats),
        }
    }
}

fn substitute<F: Fn(FloatTask) -> FloatReply>(f: &F, output: &mut String, before: &str, value: &Value) -> (result: Result<
    (),
    Error,
>)
    requires
        computes(*f),
    ensures
        match result {
            Ok(_) => substituted(old(output)@, before@, value@, floats(*f)) == Ok::<Seq<char>, ErrorView>(final(output)@),
            Err(error) => substituted(old(output)@, before@, value@, floats(*f)) == Err::<Seq<char>, ErrorView>(error@),
        },
{
    append(output, before)?;
    append(output, "(")?;
    let text = literal(f, value)?;
    append(output, text.as_str())?;
    append(output, ")")
}

fn any_unused(used: &Vec<bool>) -> (result: bool)
    ensures
        result == exists|i: int| 0 <= i < used@.len() && !#[trigger] used@[i],
{
    let mut index: usize = 0;
    while index < used.len()
        invariant
            index <= used@.len(),
            forall|i: int| 0 <= i < index ==> #[trigger] used@[i],
        decreases used@.len() - index,
    {
        if !used[index] {
            return true;
        }
        index = index + 1;
    }
    false
}

/// Binds the placeholders among the tokens of a text.
#[verifier::rlimit(40)]
pub fn bind_tokens<F: Fn(FloatTask) -> FloatReply>(f: &F, sql: &str, tokens: &Vec<SqlToken>, parameters: &Vec<Value>) -> (result:
    Result<String, Error>)
    requires
        computes(*f),
    ensures
        outcome(result) == bound_text(sql@, views(tokens@), views(parameters@), floats(*f)),
{
    let chars = chars_of(sql);
    let total: usize = chars.len();
    let count: usize = parameters.len();
    let mut used: Vec<bool> = Vec::new();
    while used.len() < count
        invariant
            used@.len() <= count,
            forall|i: int| 0 <= i < used@.len() ==> !#[trigger] used@[i],
        decreases count - used@.len(),
    {
        used.push(false);
    }
    let mut text = String::new();
    let mut cursor = Cursor { at: 0, line: 1, column: 1 };
    let mut previous: usize = 0;
    let ghost all = views(tokens@);
    let ghost values = views(parameters@);
    let ghost start_state = unbound(values.len());
    proof {
        assert(used@ =~= start_state.used);
        assert(text@ =~= start_state.text);
    }
    let mut index: usize = 0;
    while index < tokens.len()
        invariant
            computes(*f),
            chars@ == sql@,
            total == chars@.len(),
            total <= usize::MAX,
            count == parameters@.len(),
            all == views(tokens@),
            values == views(parameters@),
            start_state == unbound(values.len()),
            index <= tokens@.len(),
            cursor.stands(chars@),
            previous <= total,
            used@.len() == count,
            bound_tokens(
                sql@,
                all,
                values,
                floats(*f),
                index as nat,
                (BindingView { cursor: cursor.at as nat, previous: previous as nat, text: text@, used: used@ }),
            ) == bound_tokens(sql@, all, values, floats(*f), 0, start_state),
        decreases tokens@.len() - index,
    {
        let token = &tokens[index];
        assert(all[index as int] == token@);
        index = index + 1;
        if let TokenKind::Placeholder(name) = &token.kind {
            let at: usize = match find_parameter(name.as_str(), count) {
                Some(at) => at,
                None => return Err(invalid("SQL parameters must use $1..$N with a supplied value")),
            };
            let start: usize = match cursor.seek(&chars, token.line, token.column) {
                Some(start) => start,
                None => return Err(invalid("invalid SQL parameter location")),
            };
            let width: usize = chars_of(name.as_str()).len();
            if start < previous || width > total - start {
                return Err(invalid("invalid SQL parameter location"));
            }
            let before = string_of(&chars, previous, start);
            assert(values[at as int] == parameters@[at as int]@);
            substitute(f, &mut text, before.as_str(), &parameters[at])?;
            previous = start + width;
            used.set(at, true);
        }
    }
    if any_unused(&used) {
        return Err(invalid("every supplied SQL parameter must be referenced"));
    }
    let rest = string_of(&chars, previous, total);
    assert(rest@ =~= sql@.skip(previous as int));
    append(&mut text, rest.as_str())?;
    Ok(text)
}

/// Binds `$1`, `$2`, ... to typed values. Placeholders inside quoted strings, identifiers or
/// comments are left as they are; every value must be referenced.
pub fn bind_parameters<F: Fn(FloatTask) -> FloatReply>(f: &F, sql: &str, parameters: &Vec<Value>) -> (result: Result<
    String,
    Error,
>)
    requires
        computes(*f),
    ensures
        outcome(result) == bound(sql@, views(parameters@), floats(*f)),
{
    if count_bytes(sql) > MAX_BOUND_SQL_BYTES {
        return Err(invalid("bound SQL exceeds 32 MiB; split the request into batches"));
    }
    if parameters.len() > MAX_PARAMETERS {
        return Err(invalid("at most 65535 SQL parameters are supported"));
    }
    match tokenize(sql) {
        Ok(tokens) => bind_tokens(f, sql, &tokens, parameters),
        Err(text) => Err(Error::Parse(text)),
    }
}

/// A text without placeholders is bound as it is.
pub proof fn law_nothing_to_bind(sql: Seq<char>, tokens: Seq<TokenView>, floats: Floats)
    requires
        byte_count(sql) <= MAX_BOUND_SQL_BYTES,
        forall|i: int| 0 <= i < tokens.len() ==> (#[trigger] tokens[i]).placeholder() is None,
    ensures
        bound_text(sql, tokens, Seq::empty(), floats) == Ok::<Seq<char>, ErrorView>(sql),
{
    lemma_no_placeholder(sql, tokens, Seq::empty(), floats, 0, unbound(0));
    assert(sql.skip(0) =~= sql);
    assert(Seq::<char>::empty() + sql =~= sql);
    assert(byte_count(Seq::<char>::empty()) == 0);
}

proof fn lemma_no_placeholder(
    sql: Seq<char>,
    tokens: Seq<TokenView>,
    parameters: Seq<ValueView>,
    floats: Floats,
    from: nat,
    state: BindingView,
)
    requires
        forall|i: int| 0 <= i < tokens.len() ==> (#[trigger] tokens[i]).placeholder() is None,
    ensures
        bound_tokens(sql, tokens, parameters, floats, from, state) == Ok::<BindingView, ErrorView>(state),
    decreases tokens.len() - from,
{
    if from < tokens.len() {
        lemma_no_placeholder(sql, tokens, parameters, floats, from + 1, state);
    }
}

/// Whether some token stands for the value at `index`.
pub open spec fn referenced(tokens: Seq<TokenView>, index: nat, count: nat) -> bool {
    exists|i: int|
        0 <= i < tokens.len() && (#[trigger] tokens[i]).placeholder() is Some && parameter_index(
            tokens[i].placeholder()->Some_0,
            count,
        ) == Some(index)
}

proof fn lemma_used(
    sql: Seq<char>,
    tokens: Seq<TokenView>,
    parameters: Seq<ValueView>,
    floats: Floats,
    from: nat,
    state: BindingView,
)
    requires
        state.used.len() == parameters.len(),
        forall|k: int| 0 <= k < state.used.len() && #[trigger] state.used[k] ==> referenced(tokens, k as nat, parameters.len()),
    ensures
        bound_tokens(sql, tokens, parameters, floats, from, state) matches Ok(after) ==> after.used.len()
            == parameters.len() && forall|k: int|
            0 <= k < after.used.len() && #[trigger] after.used[k] ==> referenced(tokens, k as nat, parameters.len()),
    decreases tokens.len() - from,
{
    if from < tokens.len() {
        let token = tokens[from as int];
        if let Ok(next) = bound_token(sql, token, parameters, floats, state) {
            assert forall|k: int| 0 <= k < next.used.len() && #[trigger] next.used[k] implies referenced(
                tokens,
                k as nat,
                parameters.len(),
            ) by {
                if state.used[k] {
                } else {
                    assert(tokens[from as int].placeholder() is Some);
                }
            }
            lemma_used(sql, tokens, parameters, floats, from + 1, next);
        }
    }
}

/// What is bound refers to every value, and is not too long.
pub proof fn law_every_parameter_is_referenced(
    sql: Seq<char>,
    tokens: Seq<TokenView>,
    parameters: Seq<ValueView>,
    floats: Floats,
)
    ensures
        bound_text(sql, tokens, parameters, floats) matches Ok(text) ==> byte_count(text) <= MAX_BOUND_SQL_BYTES
            && forall|k: nat| k < parameters.len() ==> #[trigger] referenced(tokens, k, parameters.len()),
{
    lemma_used(sql, tokens, parameters, floats, 0, unbound(parameters.len()));
    if let Ok(state) = bound_tokens(sql, tokens, parameters, floats, 0, unbound(parameters.len())) {
        if let Ok(text) = bound_text(sql, tokens, parameters, floats) {
            lemma_byte_count(state.text, sql.skip(state.previous as int));
            assert forall|k: nat| k < parameters.len() implies #[trigger] referenced(tokens, k, parameters.len()) by {
                assert(state.used[k as int]);
            }
        }
    }
}

/// The text between marks, where two marks stand for one; none where a single mark stands in it.
pub open spec fn undoubled(text: Seq<char>, mark: char, from: nat, done: Seq<char>) -> Option<Seq<char>>
    decreases text.len() - from,
{
    if from >= text.len() {
        Some(done)
    } else if text[from as int] != mark {
        undoubled(text, mark, from + 1, done.push(text[from as int]))
    } else if from + 1 < text.len() && text[from as int + 1] == mark {
        undoubled(text, mark, from + 2, done.push(mark))
    } else {
        None
    }
}

proof fn lemma_doubled_prefix(text: Seq<char>, mark: char, from: nat, done: Seq<char>)
    ensures
        done.len() <= doubled_from(text, mark, from, done).len(),
        doubled_from(text, mark, from, done).take(done.len() as int) == done,
    decreases text.len() - from,
{
    if from < text.len() {
        let next = if text[from as int] == mark {
            done.push(mark).push(mark)
        } else {
            done.push(text[from as int])
        };
        lemma_doubled_prefix(text, mark, from + 1, next);
        let all = doubled_from(text, mark, from + 1, next);
        assert(all.take(done.len() as int) =~= all.take(next.len() as int).take(done.len() as int));
        assert(next.take(done.len() as int) =~= done);
    } else {
        assert(done.take(done.len() as int) =~= done);
    }
}

proof fn lemma_undoubled(text: Seq<char>, mark: char, from: nat, done: Seq<char>)
    requires
        from <= text.len(),
    ensures
        undoubled(doubled_from(text, mark, from, done), mark, done.len(), text.take(from as int)) == Some(text),
    decreases text.len() - from,
{
    if from < text.len() {
        let c = text[from as int];
        let next = if c == mark {
            done.push(mark).push(mark)
        } else {
            done.push(c)
        };
        lemma_undoubled(text, mark, from + 1, next);
        lemma_doubled_prefix(text, mark, from + 1, next);
        let all = doubled_from(text, mark, from, done);
        assert(all.take(next.len() as int)[done.len() as int] == c);
        assert(text.take(from as int + 1) =~= text.take(from as int).push(c));
        if c == mark {
            assert(all.take(next.len() as int)[done.len() as int + 1] == mark);
        }
    } else {
        assert(text.take(from as int) =~= text);
        assert(undoubled(done, mark, done.len(), text) == Some(text));
    }
}

/// No text can end the quotes that it is written in: what stands between them reads back as the
/// text.
pub proof fn law_text_is_quoted(text: Seq<char>, floats: Floats)
    ensures
        written_value(ValueView::Text(text), floats) == Ok::<Seq<char>, ErrorView>("'"@ + doubled(text, '\'') + "'"@),
        undoubled(doubled(text, '\''), '\'', 0, Seq::empty()) == Some(text),
{
    lemma_undoubled(text, '\'', 0, Seq::empty());
    assert(text.take(0) =~= Seq::<char>::empty());
}

} // verus!
