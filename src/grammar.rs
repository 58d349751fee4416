//! The three line shapes of a manifest, as scans over a line's characters.
use vstd::prelude::*;
use crate::text::{digit_char, is_digit_char, is_space_char, is_word_char, space_char, word_char};

verus! {

/// The character classes that the line shapes are built from.
pub enum CharClass {
    /// A package name character: a word character or `-`.
    Name,
    /// A word character.
    Word,
    /// A login character: anything but `/` and `@`.
    Login,
    /// A path character: anything but `#` and `@`.
    Path,
    /// A revision character: anything but `#`.
    Revision,
    /// A fragment character: anything but white space.
    Fragment,
    /// The space character.
    Blank,
    /// A version character: a decimal digit or `.`.
    Version,
}

pub open spec fn class_has(k: CharClass, c: char) -> bool {
    match k {
        CharClass::Name => word_char(c) || c == '-',
        CharClass::Word => word_char(c),
        CharClass::Login => c != '/' && c != '@',
        CharClass::Path => c != '#' && c != '@',
        CharClass::Revision => c != '#',
        CharClass::Fragment => !space_char(c),
        CharClass::Blank => c == ' ',
        CharClass::Version => digit_char(c) || c == '.',
    }
}

/// The end of the longest run of characters of class `k` that starts at `i`.
pub open spec fn run_end(s: Seq<char>, i: int, k: CharClass) -> int
    decreases s.len() - i,
{
    if 0 <= i < s.len() && class_has(k, s[i]) {
        run_end(s, i + 1, k)
    } else {
        i
    }
}

pub proof fn lemma_run_end_bounds(s: Seq<char>, i: int, k: CharClass)
    requires
        0 <= i,
    ensures
        i <= run_end(s, i, k),
        i <= s.len() ==> run_end(s, i, k) <= s.len(),
        run_end(s, i, k) > i ==> i < s.len(),
    decreases s.len() - i,
{
    if 0 <= i < s.len() && class_has(k, s[i]) {
        lemma_run_end_bounds(s, i + 1, k);
    }
}

fn char_in(k: &CharClass, c: char) -> (r: bool)
    ensures
        r == class_has(*k, c),
{
    match k {
        CharClass::Name => is_word_char(c) || c == '-',
        CharClass::Word => is_word_char(c),
        CharClass::Login => c != '/' && c != '@',
        CharClass::Path => c != '#' && c != '@',
        CharClass::Revision => c != '#',
        CharClass::Fragment => !is_space_char(c),
        CharClass::Blank => c == ' ',
        CharClass::Version => is_digit_char(c) || c == '.',
    }
}

/// Scans the run of characters of class `k` that starts at `i`.
pub fn scan(s: &Vec<char>, i: usize, k: CharClass) -> (r: usize)
    requires
        i <= s@.len(),
    ensures
        r == run_end(s@, i as int, k),
        i <= r <= s@.len(),
{
    let mut j: usize = i;
    while j < s.len() && char_in(&k, s[j])
        invariant
            i <= j <= s@.len(),
            run_end(s@, j as int, k) == run_end(s@, i as int, k),
        decreases s@.len() - j,
    {
        j = j + 1;
    }
    proof {
        lemma_run_end_bounds(s@, j as int, k);
    }
    j
}

/// Whether `t` occurs in `s` at position `i`.
pub open spec fn occurs_at(s: Seq<char>, i: int, t: Seq<char>) -> bool {
    0 <= i && i + t.len() <= s.len() && s.subrange(i, i + t.len()) == t
}

pub fn matches_at(s: &Vec<char>, i: usize, t: &Vec<char>) -> (r: bool)
    ensures
        r == occurs_at(s@, i as int, t@),
{
    if i > s.len() || t.len() > s.len() - i {
        return false;
    }
    let mut j: usize = 0;
    while j < t.len()
        invariant
            i + t@.len() <= s@.len(),
            s@.len() <= usize::MAX,
            j <= t@.len(),
            forall|m: int| 0 <= m < j ==> s@[i + m] == t@[m],
        decreases t@.len() - j,
    {
        if s[i + j] != t[j] {
            assert(s@.subrange(i as int, i + t@.len())[j as int] != t@[j as int]);
            return false;
        }
        j = j + 1;
    }
    assert(s@.subrange(i as int, i + t@.len()) =~= t@);
    true
}

} // verus!
