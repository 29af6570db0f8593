//! Byte ranges of texts.

use vstd::prelude::*;
use crate::text::{byte_count, chars_of, same_text, string_of};
use crate::unicode::{is_whitespace, unicode_space};

verus! {

broadcast use vstd::string::group_string_axioms;

/// How many bytes a character has in UTF-8.
pub open spec fn char_width(c: char) -> nat {
    byte_count(seq![c])
}

pub proof fn lemma_byte_count(first: Seq<char>, second: Seq<char>)
    ensures
        byte_count(first + second) == byte_count(first) + byte_count(second),
    decreases first.len(),
{
    if first.len() == 0 {
        assert(first + second =~= second);
    } else {
        lemma_byte_count(first.drop_first(), second);
        assert((first + second).drop_first() =~= first.drop_first() + second);
    }
}

/// A text has no more characters than bytes.
pub proof fn lemma_bytes_cover(text: Seq<char>)
    ensures
        text.len() <= byte_count(text),
    decreases text.len(),
{
    if text.len() > 0 {
        let one = seq![text[0]];
        lemma_bytes_cover(text.drop_first());
        lemma_byte_count(one, text.drop_first());
        assert(one + text.drop_first() =~= text);
        reveal_with_fuel(vstd::utf8::encode_utf8, 2);
        assert(one.drop_first() =~= Seq::<char>::empty());
        vstd::utf8::char_is_scalar(text[0]);
        assert(vstd::utf8::encode_utf8(one) =~= vstd::utf8::encode_scalar(text[0] as u32));
    }
}

fn width_of(c: char) -> (width: usize)
    ensures
        width == char_width(c),
        1 <= width <= 4,
{
    proof {
        let one = seq![c];
        reveal_with_fuel(vstd::utf8::encode_utf8, 2);
        assert(one.drop_first() =~= Seq::<char>::empty());
        assert(one[0] == c);
        vstd::utf8::char_is_scalar(c);
        assert(vstd::utf8::encode_utf8(one) =~= vstd::utf8::encode_scalar(c as u32));
    }
    let code: u32 = c as u32;
    if code < 0x80 {
        1
    } else if code < 0x800 {
        2
    } else if code < 0x10000 {
        3
    } else {
        4
    }
}

/// The first character boundary, from `from` on, that stands at a byte offset.
pub open spec fn boundary_from(text: Seq<char>, offset: nat, from: nat) -> Option<nat>
    decreases text.len() - from,
{
    if byte_count(text.take(from as int)) == offset {
        Some(from)
    } else if from >= text.len() {
        None
    } else {
        boundary_from(text, offset, from + 1)
    }
}

/// The character boundary that stands at a byte offset.
pub open spec fn boundary(text: Seq<char>, offset: nat) -> Option<nat> {
    boundary_from(text, offset, 0)
}

/// The part of a text between two byte offsets; none where one is no character boundary or they
/// are out of order.
pub open spec fn byte_slice(text: Seq<char>, start: nat, end: nat) -> Option<Seq<char>> {
    match (boundary(text, start), boundary(text, end)) {
        (Some(first), Some(last)) => if first <= last {
            Some(text.subrange(first as int, last as int))
        } else {
            None
        },
        _ => None,
    }
}

/// A character boundary is within the text.
proof fn lemma_boundary_within(text: Seq<char>, offset: nat, from: nat)
    requires
        from <= text.len(),
    ensures
        boundary_from(text, offset, from) is Some ==> offset <= byte_count(text),
    decreases text.len() - from,
{
    if byte_count(text.take(from as int)) == offset {
        lemma_byte_count(text.take(from as int), text.skip(from as int));
        assert(text.take(from as int) + text.skip(from as int) =~= text);
    } else if from < text.len() {
        lemma_boundary_within(text, offset, from + 1);
    }
}

/// A slice ends within the text.
pub proof fn lemma_slice_within(text: Seq<char>, start: nat, end: nat)
    ensures
        byte_slice(text, start, end) is Some ==> start <= byte_count(text) && end <= byte_count(text),
{
    lemma_boundary_within(text, start, 0);
    lemma_boundary_within(text, end, 0);
}

proof fn lemma_boundary_none(text: Seq<char>, offset: nat, from: nat)
    requires
        from <= text.len(),
        byte_count(text.take(from as int)) > offset,
    ensures
        boundary_from(text, offset, from) is None,
    decreases text.len() - from,
{
    if from < text.len() {
        lemma_longer_prefix(text, from);
        lemma_boundary_none(text, offset, from + 1);
    }
}

proof fn lemma_longer_prefix(text: Seq<char>, at: nat)
    requires
        at < text.len(),
    ensures
        byte_count(text.take(at as int + 1)) == byte_count(text.take(at as int)) + char_width(text[at as int]),
{
    assert(text.take(at as int + 1) =~= text.take(at as int) + seq![text[at as int]]);
    lemma_byte_count(text.take(at as int), seq![text[at as int]]);
}

fn find_boundary(chars: &Vec<char>, offset: usize) -> (result: Option<usize>)
    ensures
        match result {
            Some(at) => boundary(chars@, offset as nat) == Some(at as nat) && at <= chars@.len(),
            None => boundary(chars@, offset as nat) is None,
        },
{
    let mut at: usize = 0;
    let mut bytes: usize = 0;
    assert(chars@.take(0) =~= Seq::<char>::empty());
    while bytes < offset && at < chars.len()
        invariant
            at <= chars@.len(),
            bytes == byte_count(chars@.take(at as int)),
            bytes <= offset,
            boundary_from(chars@, offset as nat, at as nat) == boundary(chars@, offset as nat),
        decreases chars@.len() - at,
    {
        let width: usize = width_of(chars[at]);
        proof {
            lemma_longer_prefix(chars@, at as nat);
        }
        if width > offset - bytes {
            proof {
                lemma_boundary_none(chars@, offset as nat, (at + 1) as nat);
            }
            return None;
        }
        bytes = bytes + width;
        at = at + 1;
    }
    if bytes == offset {
        Some(at)
    } else {
        None
    }
}

/// The part of a text between two byte offsets.
pub fn slice_bytes(text: &str, start: usize, end: usize) -> (result: Option<String>)
    ensures
        match result {
            Some(part) => byte_slice(text@, start as nat, end as nat) == Some(part@),
            None => byte_slice(text@, start as nat, end as nat) is None,
        },
{
    let chars = chars_of(text);
    let first: usize = match find_boundary(&chars, start) {
        Some(first) => first,
        None => return None,
    };
    let last: usize = match find_boundary(&chars, end) {
        Some(last) => last,
        None => return None,
    };
    if first > last {
        return None;
    }
    Some(string_of(&chars, first, last))
}

/// Whether a text is the part of another between two byte offsets.
pub fn is_slice(text: &str, start: usize, end: usize, part: &str) -> (result: bool)
    ensures
        result == (byte_slice(text@, start as nat, end as nat) == Some(part@)),
{
    match slice_bytes(text, start, end) {
        Some(found) => same_text(found.as_str(), part),
        None => false,
    }
}

/// Whether a text holds nothing but white space.
pub open spec fn blank(text: Seq<char>) -> bool {
    forall|i: int| 0 <= i < text.len() ==> unicode_space(#[trigger] text[i])
}

pub fn is_blank(text: &str) -> (result: bool)
    ensures
        result == blank(text@),
{
    let chars = chars_of(text);
    let mut index: usize = 0;
    while index < chars.len()
        invariant
            chars@ == text@,
            index <= chars@.len(),
            forall|i: int| 0 <= i < index ==> unicode_space(#[trigger] text@[i]),
        decreases chars@.len() - index,
    {
        if !is_whitespace(chars[index]) {
            assert(!unicode_space(text@[index as int]));
            return false;
        }
        index = index + 1;
    }
    true
}

pub fn has_char(text: &str, wanted: char) -> (result: bool)
    ensures
        result == text@.contains(wanted),
{
    let chars = chars_of(text);
    let mut index: usize = 0;
    while index < chars.len()
        invariant
            chars@ == text@,
            index <= chars@.len(),
            forall|i: int| 0 <= i < index ==> text@[i] != wanted,
        decreases chars@.len() - index,
    {
        if chars[index] == wanted {
            assert(text@[index as int] == wanted);
            return true;
        }
        index = index + 1;
    }
    false
}

} // verus!
