//! Character classes of the line grammar, and conversions between strings
//! and character vectors.
use vstd::prelude::*;

verus! {

/// The pattern of a single word character, anchored at both ends.
pub open spec fn word_pattern() -> Seq<char> {
    seq!['\\', 'A', '\\', 'w', '\\', 'z']
}

/// The pattern of a single decimal digit, anchored at both ends.
pub open spec fn digit_pattern() -> Seq<char> {
    seq!['\\', 'A', '\\', 'd', '\\', 'z']
}

/// The pattern of a single white-space character, anchored at both ends.
pub open spec fn space_pattern() -> Seq<char> {
    seq!['\\', 'A', '\\', 's', '\\', 'z']
}

/// Whether the regular expression `pattern` compiles and matches `text`.
pub uninterp spec fn regex_matches(pattern: Seq<char>, text: Seq<char>) -> bool;

/// Relies on regex::Regex::new and regex::Regex::is_match: true when `pattern`
/// compiles and matches the one-character text `c`, false otherwise.
#[verifier::external_body]
fn regex_class_contains(pattern: &str, c: char) -> (r: bool)
    ensures
        r == regex_matches(pattern@, seq![c]),
{
    match regex::Regex::new(pattern) {
        Ok(re) => re.is_match(&c.to_string()),
        Err(_) => false,
    }
}

pub open spec fn is_ascii_letter_or_digit(c: char) -> bool {
    (97 <= c as u32 <= 122) || (65 <= c as u32 <= 90) || (48 <= c as u32 <= 57)
}

/// A word character (`\w`): letters, digits and `_` in ASCII, Unicode's word
/// characters beyond it.
pub open spec fn word_char(c: char) -> bool {
    if (c as u32) < 128 {
        is_ascii_letter_or_digit(c) || c == '_'
    } else {
        regex_matches(word_pattern(), seq![c])
    }
}

/// A decimal digit (`\d`): `0` to `9` in ASCII, Unicode's decimal digits beyond it.
pub open spec fn digit_char(c: char) -> bool {
    if (c as u32) < 128 {
        48 <= c as u32 <= 57
    } else {
        regex_matches(digit_pattern(), seq![c])
    }
}

/// A white-space character (`\s`): space, tab, line feed, vertical tab, form
/// feed and carriage return in ASCII, Unicode's white space beyond it.
pub open spec fn space_char(c: char) -> bool {
    if (c as u32) < 128 {
        c == ' ' || (9 <= c as u32 <= 13)
    } else {
        regex_matches(space_pattern(), seq![c])
    }
}

pub fn is_word_char(c: char) -> (r: bool)
    ensures
        r == word_char(c),
{
    let u = c as u32;
    if u < 128 {
        (97 <= u && u <= 122) || (65 <= u && u <= 90) || (48 <= u && u <= 57) || c == '_'
    } else {
        proof {
            reveal_strlit("\\A\\w\\z");
            assert("\\A\\w\\z"@ =~= word_pattern());
        }
        regex_class_contains("\\A\\w\\z", c)
    }
}

pub fn is_digit_char(c: char) -> (r: bool)
    ensures
        r == digit_char(c),
{
    let u = c as u32;
    if u < 128 {
        48 <= u && u <= 57
    } else {
        proof {
            reveal_strlit("\\A\\d\\z");
            assert("\\A\\d\\z"@ =~= digit_pattern());
        }
        regex_class_contains("\\A\\d\\z", c)
    }
}

pub fn is_space_char(c: char) -> (r: bool)
    ensures
        r == space_char(c),
{
    let u = c as u32;
    if u < 128 {
        c == ' ' || (9 <= u && u <= 13)
    } else {
        proof {
            reveal_strlit("\\A\\s\\z");
            assert("\\A\\s\\z"@ =~= space_pattern());
        }
        regex_class_contains("\\A\\s\\z", c)
    }
}

/// Relies on str::chars: the characters of `s`, in order.
#[verifier::external_body]
pub(crate) fn chars_of(s: &str) -> (r: Vec<char>)
    ensures
        r@ == s@,
{
    s.chars().collect()
}

/// Relies on String's FromIterator<char>: the string of `v`'s characters, in order.
#[verifier::external_body]
pub(crate) fn string_of(v: &[char]) -> (r: String)
    ensures
        r@ == v@,
{
    v.iter().collect()
}

} // verus!
