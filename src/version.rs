//! Ordering of version-like strings: semantic versions where both sides are
//! ones, their numeric dot-separated segments otherwise.
use vstd::prelude::*;
use crate::requirement::split_on;
use crate::text::chars_of;

verus! {

/// How `semver` orders `a` against `b`: `Some(a > b)` when both parse as
/// semantic versions, `None` when either does not.
pub uninterp spec fn semver_order(a: Seq<char>, b: Seq<char>) -> Option<bool>;

/// Relies on semver::Version::parse and on the total order that semver gives
/// `Version`: whether both strings parse, and if so whether `a` is above `b`.
#[verifier::external_body]
fn semver_greater(a: &str, b: &str) -> (r: Option<bool>)
    ensures
        r == semver_order(a@, b@),
        r is Some <==> semver_order(b@, a@) is Some,
        r == Some(true) ==> semver_order(b@, a@) == Some(false),
{
    match (semver::Version::parse(a), semver::Version::parse(b)) {
        (Ok(x), Ok(y)) => Some(x > y),
        _ => None,
    }
}

pub open spec fn is_ascii_digit(c: char) -> bool {
    48 <= c as u32 <= 57
}

pub open spec fn digit_of(c: char) -> nat {
    (c as u32 - 48) as nat
}

pub open spec fn all_ascii_digits(d: Seq<char>) -> bool {
    forall|i: int| 0 <= i < d.len() ==> is_ascii_digit(#[trigger] d[i])
}

/// The value of a string of decimal digits.
pub open spec fn digits_value(d: Seq<char>) -> nat
    decreases d.len(),
{
    if d.len() == 0 {
        0
    } else {
        digits_value(d.drop_last()) * 10 + digit_of(d.last())
    }
}

/// The digits of an unsigned number: its text without one leading `+`.
pub open spec fn unsigned_digits(s: Seq<char>) -> Seq<char> {
    if s.len() > 0 && s[0] == '+' {
        s.drop_first()
    } else {
        s
    }
}

/// What reading `s` as a `u64` gives: an optional `+`, then one or more ASCII
/// digits whose value fits.
pub open spec fn parse_u64_spec(s: Seq<char>) -> Option<u64> {
    let d = unsigned_digits(s);
    if d.len() > 0 && all_ascii_digits(d) && digits_value(d) <= u64::MAX {
        Some(digits_value(d) as u64)
    } else {
        None
    }
}

/// The segments among `p` that read as `u64`, in order.
pub open spec fn numbers(p: Seq<Seq<char>>) -> Seq<u64>
    decreases p.len(),
{
    if p.len() == 0 {
        Seq::empty()
    } else {
        let r = numbers(p.drop_last());
        match parse_u64_spec(p.last()) {
            Some(v) => r.push(v),
            None => r,
        }
    }
}

/// The numeric segments of a version, `.` separating them.
pub open spec fn numeric_parts(s: Seq<char>) -> Seq<u64> {
    numbers(split_on(s, '.'))
}

/// Compares element by element; the first difference decides, and where
/// none is found the longer sequence is the greater.
pub open spec fn parts_greater(a: Seq<u64>, b: Seq<u64>) -> bool
    decreases a.len(),
{
    if a.len() == 0 || b.len() == 0 {
        a.len() > b.len()
    } else if a[0] != b[0] {
        a[0] > b[0]
    } else {
        parts_greater(a.drop_first(), b.drop_first())
    }
}

/// Whether version `a` is above version `b`.
pub open spec fn is_greater(a: Seq<char>, b: Seq<char>) -> bool {
    match semver_order(a, b) {
        Some(g) => g,
        None => parts_greater(numeric_parts(a), numeric_parts(b)),
    }
}

pub proof fn lemma_parts_greater_asymmetric(a: Seq<u64>, b: Seq<u64>)
    ensures
        parts_greater(a, b) ==> !parts_greater(b, a),
    decreases a.len(),
{
    if a.len() > 0 && b.len() > 0 && a[0] == b[0] {
        lemma_parts_greater_asymmetric(a.drop_first(), b.drop_first());
    }
}

proof fn lemma_digits_value_prefix(d: Seq<char>, j: int)
    requires
        0 <= j <= d.len(),
    ensures
        digits_value(d.subrange(0, j)) <= digits_value(d),
    decreases d.len() - j,
{
    if j < d.len() {
        lemma_digits_value_prefix(d, j + 1);
        assert(d.subrange(0, j + 1).drop_last() =~= d.subrange(0, j));
    } else {
        assert(d.subrange(0, j) =~= d);
    }
}

/// Reads `s` as a `u64` as `str::parse` does.
pub fn parse_u64(s: &Vec<char>) -> (r: Option<u64>)
    ensures
        r == parse_u64_spec(s@),
{
    let mut i: usize = 0;
    if s.len() > 0 && s[0] == '+' {
        i = 1;
    }
    let ghost d = unsigned_digits(s@);
    assert(d =~= s@.subrange(i as int, s@.len() as int));
    if i == s.len() {
        return None;
    }
    let mut acc: u64 = 0;
    let mut j: usize = i;
    proof {
        assert(d.subrange(0, 0) =~= Seq::<char>::empty());
    }
    while j < s.len()
        invariant
            i <= j <= s@.len(),
            d == s@.subrange(i as int, s@.len() as int),
            d == unsigned_digits(s@),
            forall|m: int| 0 <= m < j - i ==> is_ascii_digit(#[trigger] d[m]),
            acc == digits_value(d.subrange(0, j - i)),
        decreases s@.len() - j,
    {
        let c = s[j];
        assert(d[j - i] == c);
        let u = c as u32;
        if !(u >= 48 && u <= 57) {
            assert(!is_ascii_digit(d[j - i]));
            assert(!all_ascii_digits(d));
            return None;
        }
        assert(d.subrange(0, j - i + 1).drop_last() =~= d.subrange(0, j - i));
        assert(d.subrange(0, j - i + 1).last() == c);
        let digit: u64 = (u - 48) as u64;
        assert(digit == digit_of(c));
        assert(digits_value(d.subrange(0, j - i + 1)) == acc * 10 + digit);
        match acc.checked_mul(10) {
            Some(m) => match m.checked_add(digit) {
                Some(v) => {
                    acc = v;
                },
                None => {
                    proof {
                        lemma_digits_value_prefix(d, j - i + 1);
                    }
                    return None;
                },
            },
            None => {
                proof {
                    lemma_digits_value_prefix(d, j - i + 1);
                }
                return None;
            },
        }
        j = j + 1;
    }
    assert(d.subrange(0, j - i) =~= d);
    Some(acc)
}

/// The numeric segments of `a`, as [`numeric_parts`] gives them.
fn numeric_parts_exec(a: &str) -> (r: Vec<u64>)
    ensures
        r@ == numeric_parts(a@),
{
    let s = chars_of(a);
    let mut out: Vec<u64> = Vec::new();
    let mut cur: Vec<char> = Vec::new();
    let mut i: usize = 0;
    proof {
        assert(s@.subrange(0, 0) =~= Seq::<char>::empty());
    }
    while i < s.len()
        invariant
            i <= s@.len(),
            split_on(s@.subrange(0, i as int), '.').len() >= 1,
            split_on(s@.subrange(0, i as int), '.').last() == cur@,
            out@ == numbers(split_on(s@.subrange(0, i as int), '.').drop_last()),
        decreases s@.len() - i,
    {
        let ghost prev = s@.subrange(0, i as int);
        let ghost pieces_before = split_on(prev, '.');
        assert(s@.subrange(0, i + 1).drop_last() =~= prev);
        assert(s@.subrange(0, i + 1).last() == s@[i as int]);
        if s[i] == '.' {
            match parse_u64(&cur) {
                Some(v) => out.push(v),
                None => {},
            }
            cur = Vec::new();
            proof {
                let pieces_after = split_on(s@.subrange(0, i + 1), '.');
                assert(pieces_after.drop_last() =~= pieces_before);
                assert(pieces_before.drop_last().push(pieces_before.last()) =~= pieces_before);
            }
        } else {
            cur.push(s[i]);
            proof {
                let pieces_after = split_on(s@.subrange(0, i + 1), '.');
                assert(pieces_after.drop_last() =~= pieces_before.drop_last());
            }
        }
        i = i + 1;
    }
    assert(s@.subrange(0, s@.len() as int) =~= s@);
    let ghost p = split_on(s@, '.');
    assert(p.drop_last().push(p.last()) =~= p);
    match parse_u64(&cur) {
        Some(v) => out.push(v),
        None => {},
    }
    out
}

fn parts_greater_exec(a: &Vec<u64>, b: &Vec<u64>) -> (r: bool)
    ensures
        r == parts_greater(a@, b@),
{
    let mut i: usize = 0;
    assert(a@.skip(0) =~= a@);
    assert(b@.skip(0) =~= b@);
    while i < a.len() && i < b.len()
        invariant
            i <= a@.len(),
            i <= b@.len(),
            parts_greater(a@, b@) == parts_greater(a@.skip(i as int), b@.skip(i as int)),
        decreases a@.len() - i,
    {
        assert(a@.skip(i as int)[0] == a@[i as int]);
        assert(b@.skip(i as int)[0] == b@[i as int]);
        if a[i] != b[i] {
            return a[i] > b[i];
        }
        assert(a@.skip(i as int).drop_first() =~= a@.skip(i + 1));
        assert(b@.skip(i as int).drop_first() =~= b@.skip(i + 1));
        i = i + 1;
    }
    a.len() > b.len()
}

/// Decides whether `a` is above `b` given what the semantic-version ordering
/// said of them (`semver`): its verdict where it has one, the numeric
/// segments otherwise.
pub fn version_greater_given(semver: Option<bool>, a: &str, b: &str) -> (r: bool)
    ensures
        r == match semver {
            Some(g) => g,
            None => parts_greater(numeric_parts(a@), numeric_parts(b@)),
        },
{
    match semver {
        Some(g) => g,
        None => parts_greater_exec(&numeric_parts_exec(a), &numeric_parts_exec(b)),
    }
}

/// Whether version `a` is above version `b`.
pub fn version_greater(a: &str, b: &str) -> (r: bool)
    ensures
        r == is_greater(a@, b@),
        r ==> !is_greater(b@, a@),
{
    let order = semver_greater(a, b);
    proof {
        lemma_parts_greater_asymmetric(numeric_parts(a@), numeric_parts(b@));
    }
    version_greater_given(order, a, b)
}

} // verus!
