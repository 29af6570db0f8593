//! Character properties that the Unicode tables of the standard library decide.

use vstd::prelude::*;

verus! {

broadcast use vstd::string::group_string_axioms;

/// Whether a text is of ASCII characters alone.
pub open spec fn ascii(text: Seq<char>) -> bool {
    forall|i: int| 0 <= i < text.len() ==> (#[trigger] text[i] as u32) < 128
}

/// An ASCII character in lower case.
pub open spec fn ascii_lower(c: char) -> char {
    if 'A' <= c && c <= 'Z' {
        (c as u32 + 32) as char
    } else {
        c
    }
}

/// The lower-case form that Unicode gives a text with other characters than those of ASCII.
pub uninterp spec fn unicode_lower(text: Seq<char>) -> Seq<char>;

/// A text in lower case.
pub open spec fn lowered(text: Seq<char>) -> Seq<char> {
    if ascii(text) {
        text.map_values(|c: char| ascii_lower(c))
    } else {
        unicode_lower(text)
    }
}

/// `str::to_lowercase`: the lower-case form that Unicode gives the text. Of ASCII text the letters
/// `A` to `Z` become `a` to `z` and the rest stays; of other text only that the form depends on the
/// text is said.
#[verifier::external_body]
pub(crate) fn to_lowercase(text: &str) -> (lower: String)
    ensures
        ascii(text@) ==> lower@ == text@.map_values(|c: char| ascii_lower(c)),
        !ascii(text@) ==> lower@ == unicode_lower(text@),
{
    text.to_lowercase()
}

/// Whether Unicode counts a character as white space.
pub open spec fn unicode_space(c: char) -> bool {
    let code = c as u32;
    ||| 0x9 <= code <= 0xd
    ||| code == 0x20
    ||| code == 0x85
    ||| code == 0xa0
    ||| code == 0x1680
    ||| 0x2000 <= code <= 0x200a
    ||| code == 0x2028
    ||| code == 0x2029
    ||| code == 0x202f
    ||| code == 0x205f
    ||| code == 0x3000
}

/// Whether Unicode counts a character as white space.
pub fn is_whitespace(c: char) -> (space: bool)
    ensures
        space == unicode_space(c),
{
    let code = c as u32;
    (0x9 <= code && code <= 0xd) || code == 0x20 || code == 0x85 || code == 0xa0 || code == 0x1680 || (0x2000 <= code
        && code <= 0x200a) || code == 0x2028 || code == 0x2029 || code == 0x202f || code == 0x205f || code == 0x3000
}

/// Whether Unicode counts a character outside ASCII as a letter or a number.
pub uninterp spec fn wide_alphanumeric(c: char) -> bool;

/// Whether Unicode counts a character as a letter or a number.
pub open spec fn unicode_alphanumeric(c: char) -> bool {
    if (c as u32) < 128 {
        'a' <= c && c <= 'z' || 'A' <= c && c <= 'Z' || '0' <= c && c <= '9'
    } else {
        wide_alphanumeric(c)
    }
}

/// `char::is_alphanumeric`: whether Unicode counts the character as a letter or a number. Of ASCII
/// these are the letters and the digits; of other characters only that it depends on the character
/// is said.
#[verifier::external_body]
pub(crate) fn is_alphanumeric(c: char) -> (alphanumeric: bool)
    ensures
        (c as u32) < 128 ==> alphanumeric == unicode_alphanumeric(c),
        (c as u32) >= 128 ==> alphanumeric == wide_alphanumeric(c),
{
    c.is_alphanumeric()
}

} // verus!
