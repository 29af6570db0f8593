//! Character-level text operations over `Seq<char>`.

use vstd::prelude::*;

verus! {

broadcast use vstd::string::group_string_axioms;

/// `String::push` appends one character.
pub assume_specification[ String::push ](s: &mut String, c: char)
    ensures
        final(s)@ == old(s)@.push(c),
;

/// `str::eq` holds exactly when the two slices hold the same characters.
pub assume_specification[ <str as PartialEq>::eq ](left: &str, right: &str) -> (equal: bool)
    ensures
        equal == (left@ == right@),
;

/// The views of a sequence's items, in order.
pub open spec fn views<T: View>(items: Seq<T>) -> Seq<T::V> {
    items.map_values(|item: T| item@)
}

pub broadcast proof fn lemma_views_push<T: View>(items: Seq<T>, item: T)
    ensures
        #[trigger] views(items.push(item)) == views(items).push(item@),
{
    assert(views(items.push(item)) =~= views(items).push(item@));
}

/// Whether the two slices hold the same characters.
pub fn same_text(left: &str, right: &str) -> (same: bool)
    ensures
        same == (left@ == right@),
{
    *left == *right
}

/// The characters of a string slice.
pub fn chars_of(text: &str) -> (chars: Vec<char>)
    ensures
        chars@ == text@,
{
    let mut out: Vec<char> = Vec::new();
    for c in it: text.chars()
        invariant
            out@ == text@.take(it.index() as int),
            it.seq() == text@,
    {
        out.push(c);
        assert(text@.take(it.index() + 1) =~= text@.take(it.index() as int).push(c));
    }
    assert(text@.take(text@.len() as int) =~= text@);
    out
}

/// The string made of `chars[from..to]`.
pub fn string_of(chars: &Vec<char>, from: usize, to: usize) -> (text: String)
    requires
        from <= to <= chars@.len(),
    ensures
        text@ == chars@.subrange(from as int, to as int),
{
    let mut out = String::new();
    let mut index: usize = from;
    assert(out@ =~= chars@.subrange(from as int, from as int));
    while index < to
        invariant
            from <= index <= to <= chars@.len(),
            out@ == chars@.subrange(from as int, index as int),
        decreases to - index,
    {
        out.push(chars[index]);
        index = index + 1;
        assert(out@ =~= chars@.subrange(from as int, index as int));
    }
    out
}

/// The three texts one after another.
pub fn join3(first: &str, second: &str, third: &str) -> (text: String)
    ensures
        text@ == first@ + second@ + third@,
{
    let mut out = first.to_owned();
    out.append(second);
    out.append(third);
    out
}

/// The two texts one after another.
pub fn join2(first: &str, second: &str) -> (text: String)
    ensures
        text@ == first@ + second@,
{
    let mut out = first.to_owned();
    out.append(second);
    out
}

/// The items with `separator` between each pair, from item `from` on, after `done`.
pub open spec fn joined_from(items: Seq<Seq<char>>, separator: Seq<char>, from: nat, done: Seq<char>) -> Seq<char>
    decreases items.len() - from,
{
    if from >= items.len() {
        done
    } else if from == 0 {
        joined_from(items, separator, 1, done + items[0])
    } else {
        joined_from(items, separator, from + 1, done + separator + items[from as int])
    }
}

/// The items with `separator` between each pair.
pub open spec fn joined(items: Seq<Seq<char>>, separator: Seq<char>) -> Seq<char> {
    joined_from(items, separator, 0, Seq::empty())
}

/// The items with `separator` between each pair.
pub fn join_all(items: &Vec<String>, separator: &str) -> (text: String)
    ensures
        text@ == joined(views(items@), separator@),
{
    let mut out = String::new();
    let mut index: usize = 0;
    while index < items.len()
        invariant
            index <= items@.len(),
            joined_from(views(items@), separator@, index as nat, out@) == joined(views(items@), separator@),
        decreases items@.len() - index,
    {
        if index > 0 {
            out.append(separator);
        }
        out.append(items[index].as_str());
        index = index + 1;
    }
    out
}

/// The decimal digit of `value`, for a value below ten.
pub open spec fn digit_char(value: int) -> char {
    (48 + value) as char
}

/// A natural number in decimal notation.
pub open spec fn decimal_text(value: nat) -> Seq<char>
    decreases value,
{
    if value < 10 {
        seq![digit_char(value as int)]
    } else {
        decimal_text(value / 10).push(digit_char((value % 10) as int))
    }
}

/// An integer in decimal notation.
pub open spec fn signed_decimal_text(value: int) -> Seq<char> {
    if value < 0 {
        seq!['-'] + decimal_text((-value) as nat)
    } else {
        decimal_text(value as nat)
    }
}

/// A natural number in decimal notation.
pub fn decimal(value: u64) -> (text: String)
    ensures
        text@ == decimal_text(value as nat),
    decreases value,
{
    let digit: char = (48u8 + (value % 10) as u8) as char;
    if value < 10 {
        let mut out = String::new();
        out.push(digit);
        assert(out@ =~= seq![digit_char(value as int)]);
        out
    } else {
        let mut out = decimal(value / 10);
        out.push(digit);
        out
    }
}

/// A length or a count in decimal notation.
pub fn decimal_count(value: usize) -> (text: String)
    ensures
        text@ == decimal_text(value as nat),
{
    decimal(value as u64)
}

/// An integer in decimal notation.
pub fn signed_decimal(value: i64) -> (text: String)
    ensures
        text@ == signed_decimal_text(value as int),
{
    if value >= 0 {
        return decimal(value as u64);
    }
    let magnitude: u64 = if value == i64::MIN {
        9223372036854775808u64
    } else {
        (-value) as u64
    };
    let digits = decimal(magnitude);
    let mut out = String::new();
    out.push('-');
    out.append(digits.as_str());
    assert(out@ =~= seq!['-'] + decimal_text((-(value as int)) as nat));
    out
}

/// The ASCII lower-case form of one character.
pub open spec fn lower_char(c: char) -> char {
    if 'A' <= c && c <= 'Z' {
        ((c as int) + 32) as char
    } else {
        c
    }
}

/// The text with every ASCII upper-case letter in lower case.
pub open spec fn normalized(text: Seq<char>) -> Seq<char> {
    text.map_values(|c: char| lower_char(c))
}

pub fn lower(c: char) -> (result: char)
    ensures
        result == lower_char(c),
{
    if 'A' <= c && c <= 'Z' {
        ((c as u8) + 32) as char
    } else {
        c
    }
}

/// The text with every ASCII upper-case letter in lower case.
pub fn normalize_name(name: &str) -> (result: String)
    ensures
        result@ == normalized(name@),
{
    let chars = chars_of(name);
    let mut out = String::new();
    let mut index: usize = 0;
    while index < chars.len()
        invariant
            chars@ == name@,
            index <= chars@.len(),
            out@ == normalized(name@).take(index as int),
        decreases chars@.len() - index,
    {
        out.push(lower(chars[index]));
        index = index + 1;
        assert(out@ =~= normalized(name@).take(index as int));
    }
    assert(out@ =~= normalized(name@));
    out
}

/// Whether the two texts differ at most in the case of ASCII letters.
pub fn same_name(left: &str, right: &str) -> (same: bool)
    ensures
        same == (normalized(left@) == normalized(right@)),
{
    let left_lower = normalize_name(left);
    let right_lower = normalize_name(right);
    left_lower == right_lower
}

/// The outcome of comparing two items of a total preorder.
#[derive(Clone, Copy, Debug, PartialEq, Eq, Structural)]
pub enum Rank {
    Before,
    Same,
    After,
}

impl Rank {
    pub open spec fn reversed(self) -> Rank {
        match self {
            Rank::Before => Rank::After,
            Rank::Same => Rank::Same,
            Rank::After => Rank::Before,
        }
    }

    pub fn reverse(self) -> (result: Rank)
        ensures
            result == self.reversed(),
    {
        match self {
            Rank::Before => Rank::After,
            Rank::Same => Rank::Same,
            Rank::After => Rank::Before,
        }
    }
}

/// The first rank, or the second where the first leaves both at the same place.
pub open spec fn next_rank(first: Rank, second: Rank) -> Rank {
    if first == Rank::Same {
        second
    } else {
        first
    }
}

/// The rank of two integers.
pub open spec fn int_rank(left: int, right: int) -> Rank {
    if left < right {
        Rank::Before
    } else if left == right {
        Rank::Same
    } else {
        Rank::After
    }
}

/// The lexicographic rank of two texts from position `from` on.
pub open spec fn text_rank_from(left: Seq<char>, right: Seq<char>, from: nat) -> Rank
    decreases left.len() - from,
{
    if from >= left.len() || from >= right.len() {
        int_rank(left.len() as int, right.len() as int)
    } else if left[from as int] != right[from as int] {
        int_rank(left[from as int] as int, right[from as int] as int)
    } else {
        text_rank_from(left, right, from + 1)
    }
}

/// The lexicographic rank of two texts by code point.
pub open spec fn text_rank(left: Seq<char>, right: Seq<char>) -> Rank {
    text_rank_from(left, right, 0)
}

/// Two texts rank the same exactly when they are equal.
pub proof fn lemma_text_rank_same(left: Seq<char>, right: Seq<char>, from: nat)
    requires
        from <= left.len(),
        from <= right.len(),
    ensures
        text_rank_from(left, right, from) == Rank::Same <==> left.skip(from as int) == right.skip(from as int),
    decreases left.len() - from,
{
    if from >= left.len() || from >= right.len() {
        if left.len() == right.len() {
            assert(left.skip(from as int) =~= right.skip(from as int));
        } else {
            assert(left.skip(from as int).len() != right.skip(from as int).len());
        }
    } else {
        let l = left.skip(from as int);
        let r = right.skip(from as int);
        assert(l[0] == left[from as int] && r[0] == right[from as int]);
        lemma_text_rank_same(left, right, from + 1);
        assert(l =~= seq![left[from as int]] + left.skip(from as int + 1));
        assert(r =~= seq![right[from as int]] + right.skip(from as int + 1));
        assert(l.skip(1) =~= left.skip(from as int + 1));
        assert(r.skip(1) =~= right.skip(from as int + 1));
    }
}

proof fn lemma_text_between(first: Seq<char>, middle: Seq<char>, last: Seq<char>, from: nat)
    requires
        from <= first.len(),
        from <= middle.len(),
        from <= last.len(),
    ensures
        text_rank_from(first, middle, from) == Rank::Before && text_rank_from(middle, last, from) == Rank::Before
            ==> text_rank_from(first, last, from) == Rank::Before,
        text_rank_from(first, last, from) == Rank::Before ==> text_rank_from(first, middle, from) == Rank::Before
            || text_rank_from(middle, last, from) == Rank::Before,
        text_rank_from(first, last, from) == Rank::Before <==> text_rank_from(last, first, from) == Rank::After,
    decreases first.len() - from,
{
    if from < first.len() && from < middle.len() && from < last.len() {
        lemma_text_between(first, middle, last, from + 1);
    } else if from < first.len() && from < last.len() {
        lemma_text_between(first, first, last, from + 1);
    }
}

/// Texts are in a strict order: transitive, and any third text stands behind the first or before
/// the second.
pub proof fn lemma_text_order(first: Seq<char>, middle: Seq<char>, last: Seq<char>)
    ensures
        text_rank(first, first) == Rank::Same,
        text_rank(first, middle) == Rank::Before && text_rank(middle, last) == Rank::Before ==> text_rank(first, last)
            == Rank::Before,
        text_rank(first, last) == Rank::Before ==> text_rank(first, middle) == Rank::Before || text_rank(middle, last)
            == Rank::Before,
        text_rank(first, last) == Rank::Before <==> text_rank(last, first) == Rank::After,
{
    lemma_text_between(first, middle, last, 0);
    lemma_text_rank_same(first, first, 0);
}

/// The lexicographic rank of two texts by code point.
pub fn rank_text(left: &str, right: &str) -> (result: Rank)
    ensures
        result == text_rank(left@, right@),
{
    let a = chars_of(left);
    let b = chars_of(right);
    let mut index: usize = 0;
    while index < a.len() && index < b.len()
        invariant
            a@ == left@,
            b@ == right@,
            index <= a@.len(),
            index <= b@.len(),
            text_rank_from(left@, right@, index as nat) == text_rank(left@, right@),
        decreases a@.len() - index,
    {
        if a[index] != b[index] {
            return if a[index] < b[index] { Rank::Before } else { Rank::After };
        }
        index = index + 1;
    }
    if a.len() < b.len() {
        Rank::Before
    } else if a.len() == b.len() {
        Rank::Same
    } else {
        Rank::After
    }
}

pub open spec fn is_digit(c: char) -> bool {
    '0' <= c && c <= '9'
}

/// Whether every character is a decimal digit.
pub open spec fn all_digits(text: Seq<char>) -> bool {
    forall|i: int| 0 <= i < text.len() ==> is_digit(#[trigger] text[i])
}

/// The number that decimal digits denote.
pub open spec fn digits_value(text: Seq<char>) -> nat
    decreases text.len(),
{
    if text.len() == 0 {
        0
    } else {
        digits_value(text.drop_last()) * 10 + (text.last() as nat - 48) as nat
    }
}

/// The number that `text` denotes: an optional plus sign and at least one digit,
/// at most `max`.
pub open spec fn unsigned_value(text: Seq<char>, max: nat) -> Option<nat> {
    let digits = if text.len() > 0 && text[0] == '+' { text.skip(1) } else { text };
    if digits.len() == 0 || !all_digits(digits) || digits_value(digits) > max {
        None
    } else {
        Some(digits_value(digits))
    }
}

proof fn lemma_digits_value_grows(text: Seq<char>, prefix: int)
    requires
        0 <= prefix <= text.len(),
        all_digits(text),
    ensures
        digits_value(text.take(prefix)) <= digits_value(text),
    decreases text.len(),
{
    if prefix == text.len() {
        assert(text.take(prefix) =~= text);
    } else {
        assert(all_digits(text.drop_last()));
        lemma_digits_value_grows(text.drop_last(), prefix);
        assert(text.drop_last().take(prefix) =~= text.take(prefix));
    }
}

/// Reads an unsigned decimal number of at most `max`.
pub fn parse_unsigned(text: &str, max: u64) -> (result: Option<u64>)
    ensures
        match result {
            Some(value) => unsigned_value(text@, max as nat) == Some(value as nat),
            None => unsigned_value(text@, max as nat) is None,
        },
{
    let chars = chars_of(text);
    let start: usize = if chars.len() > 0 && chars[0] == '+' { 1 } else { 0 };
    let ghost digits = if text@.len() > 0 && text@[0] == '+' { text@.skip(1) } else { text@ };
    if start == chars.len() {
        return None;
    }
    let mut value: u64 = 0;
    let mut index: usize = start;
    assert(digits.take(0) =~= Seq::<char>::empty());
    while index < chars.len()
        invariant
            chars@ == text@,
            start <= index <= chars@.len(),
            start <= 1,
            digits == text@.skip(start as int),
            digits == (if text@.len() > 0 && text@[0] == '+' { text@.skip(1) } else { text@ }),
            value == digits_value(digits.take(index - start)),
            value <= max,
            all_digits(digits.take(index - start)),
        decreases chars@.len() - index,
    {
        let c = chars[index];
        assert(digits[index - start] == c);
        if !('0' <= c && c <= '9') {
            return None;
        }
        let digit: u64 = (c as u64) - 48;
        let ghost longer = digits.take(index - start + 1);
        proof {
            assert(longer.drop_last() =~= digits.take(index - start));
            assert(longer.last() == c);
            assert(digits_value(longer) == value * 10 + digit);
            assert forall|i: int| 0 <= i < longer.len() implies is_digit(#[trigger] longer[i]) by {
                if i < index - start {
                    assert(longer[i] == digits.take(index - start)[i]);
                }
            }
        }
        let scaled = match value.checked_mul(10) {
            Some(scaled) => scaled,
            None => {
                proof {
                    if all_digits(digits) {
                        lemma_digits_value_grows(digits, index - start + 1);
                    }
                }
                return None;
            },
        };
        let next = match scaled.checked_add(digit) {
            Some(next) => next,
            None => {
                proof {
                    if all_digits(digits) {
                        lemma_digits_value_grows(digits, index - start + 1);
                    }
                }
                return None;
            },
        };
        if next > max {
            proof {
                if all_digits(digits) {
                    lemma_digits_value_grows(digits, index - start + 1);
                }
            }
            return None;
        }
        value = next;
        index = index + 1;
    }
    assert(digits.take(digits.len() as int) =~= digits);
    Some(value)
}

/// The integer that `text` denotes within the range of a signed 64-bit integer.
pub open spec fn integer_value(text: Seq<char>) -> Option<int> {
    if text.len() > 0 && text[0] == '-' {
        let digits = text.skip(1);
        if digits.len() == 0 || digits[0] == '+' {
            None
        } else {
            match unsigned_value(digits, 9223372036854775808) {
                Some(value) => Some(-(value as int)),
                None => None,
            }
        }
    } else {
        match unsigned_value(text, 9223372036854775807) {
            Some(value) => Some(value as int),
            None => None,
        }
    }
}

/// Reads a signed 64-bit integer in decimal notation.
pub fn parse_integer(text: &str) -> (result: Option<i64>)
    ensures
        match result {
            Some(value) => integer_value(text@) == Some(value as int),
            None => integer_value(text@) is None,
        },
{
    let chars = chars_of(text);
    if chars.len() > 0 && chars[0] == '-' {
        let digits = string_of(&chars, 1, chars.len());
        assert(digits@ =~= text@.skip(1));
        if chars.len() == 1 || chars[1] == '+' {
            return None;
        }
        match parse_unsigned(digits.as_str(), 9223372036854775808u64) {
            Some(value) => {
                if value == 9223372036854775808u64 {
                    Some(i64::MIN)
                } else {
                    Some(-(value as i64))
                }
            },
            None => None,
        }
    } else {
        match parse_unsigned(text, 9223372036854775807u64) {
            Some(value) => Some(value as i64),
            None => None,
        }
    }
}

/// How many bytes a text has in UTF-8.
pub open spec fn byte_count(text: Seq<char>) -> nat {
    vstd::utf8::encode_utf8(text).len()
}

/// How many bytes a text has in UTF-8.
pub fn count_bytes(text: &str) -> (count: usize)
    ensures
        count == byte_count(text@),
{
    text.as_bytes().len()
}

/// The decimal notation of a number has a digit, nothing but digits, and denotes the number.
pub proof fn lemma_decimal_text(value: nat)
    ensures
        decimal_text(value).len() > 0,
        all_digits(decimal_text(value)),
        digits_value(decimal_text(value)) == value,
    decreases value,
{
    if value < 10 {
        let text = decimal_text(value);
        assert(text.drop_last() =~= Seq::<char>::empty());
        assert(digits_value(text.drop_last()) == 0);
    } else {
        lemma_decimal_text(value / 10);
        let text = decimal_text(value);
        assert(text.drop_last() =~= decimal_text(value / 10));
        assert forall|i: int| 0 <= i < text.len() implies is_digit(#[trigger] text[i]) by {
            if i < text.len() - 1 {
                assert(text[i] == decimal_text(value / 10)[i]);
            }
        }
    }
}

} // verus!
