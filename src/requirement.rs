//! One manifest line, structured: its text and the fields read from it.
use vstd::prelude::*;
use crate::grammar::{matches_at, occurs_at, run_end, scan, CharClass};
use crate::text::{chars_of, string_of};

verus! {

/// One line of a manifest. `line` is the text that is written back; the other
/// fields are read from it, and the setters change both together.
pub struct Requirement {
    pub line: String,
    /// The identity that matches a dependency across the three manifests.
    pub name: Option<String>,
    pub constraint: Option<String>,
    pub version: Option<String>,
    pub revision: Option<String>,
    pub fragment: Option<String>,
}

/// The mathematical value of a [`Requirement`].
pub struct RequirementView {
    pub line: Seq<char>,
    pub name: Option<Seq<char>>,
    pub constraint: Option<Seq<char>>,
    pub version: Option<Seq<char>>,
    pub revision: Option<Seq<char>>,
    pub fragment: Option<Seq<char>>,
}

pub open spec fn opt_view(o: Option<String>) -> Option<Seq<char>> {
    match o {
        Some(s) => Some(s@),
        None => None,
    }
}

pub open spec fn opt_str_view(o: Option<&str>) -> Option<Seq<char>> {
    match o {
        Some(s) => Some(s@),
        None => None,
    }
}

impl View for Requirement {
    type V = RequirementView;

    open spec fn view(&self) -> RequirementView {
        RequirementView {
            line: self.line@,
            name: opt_view(self.name),
            constraint: opt_view(self.constraint),
            version: opt_view(self.version),
            revision: opt_view(self.revision),
            fragment: opt_view(self.fragment),
        }
    }
}

pub open spec fn opt_req_view(o: Option<Requirement>) -> Option<RequirementView> {
    match o {
        Some(r) => Some(r@),
        None => None,
    }
}

/// A line that matches none of the shapes: its text and nothing else.
pub open spec fn unmatched(s: Seq<char>) -> RequirementView {
    RequirementView {
        line: s,
        name: None,
        constraint: None,
        version: None,
        revision: None,
        fragment: None,
    }
}

/// The length of the VCS scheme that `s` starts with (followed by `://`), or 0.
pub open spec fn scheme_len(s: Seq<char>) -> int {
    if occurs_at(s, 0, seq!['g', 'i', 't', ':', '/', '/']) {
        3
    } else if occurs_at(s, 0, seq!['g', 'i', 't', '+', 'h', 't', 't', 'p', 's', ':', '/', '/']) {
        9
    } else if occurs_at(s, 0, seq!['g', 'i', 't', '+', 's', 's', 'h', ':', '/', '/']) {
        7
    } else if occurs_at(s, 0, seq!['g', 'i', 't', '+', 'g', 'i', 't', ':', '/', '/']) {
        7
    } else {
        0
    }
}

/// Where the path of a VCS reference starts, `a` being the position after
/// `://`: past a `login@` when one is there and a path follows it.
pub open spec fn vcs_path_start(s: Seq<char>, a: int) -> int {
    let l = run_end(s, a, CharClass::Login);
    if l > a && l < s.len() && s[l] == '@' && run_end(s, l + 1, CharClass::Path) > l + 1 {
        l + 1
    } else {
        a
    }
}

/// `scheme://[login@]path[@revision][#fragment]`, the identity being
/// `scheme://path`.
pub open spec fn vcs_shape(s: Seq<char>) -> Option<RequirementView> {
    let k = scheme_len(s);
    let p = vcs_path_start(s, k + 3);
    let e = run_end(s, p, CharClass::Path);
    let re = run_end(s, e + 1, CharClass::Revision);
    let has_rev = e < s.len() && s[e] == '@' && re > e + 1;
    let f = if has_rev {
        re
    } else {
        e
    };
    let fe = run_end(s, f + 1, CharClass::Fragment);
    let has_frag = f < s.len() && s[f] == '#' && fe > f + 1;
    if k == 0 || e == p {
        None
    } else {
        Some(
            RequirementView {
                line: s,
                name: Some(s.subrange(0, k + 3) + s.subrange(p, e)),
                constraint: None,
                version: None,
                revision: if has_rev {
                    Some(s.subrange(e + 1, re))
                } else {
                    None
                },
                fragment: if has_frag {
                    Some(s.subrange(f + 1, fe))
                } else {
                    None
                },
            },
        )
    }
}

/// The end of the optional `[extras]` that may follow a name ending at `n`;
/// -1 where a `[` opens no well-formed extras.
pub open spec fn extras_end(s: Seq<char>, n: int) -> int {
    if n < s.len() && s[n] == '[' {
        let w = run_end(s, n + 1, CharClass::Word);
        if w > n + 1 && w < s.len() && s[w] == ']' {
            w + 1
        } else {
            -1
        }
    } else {
        n
    }
}

pub open spec fn is_operator_start(c: char) -> bool {
    c == '<' || c == '>' || c == '='
}

/// `name[extras] op version`, `op` being `<=`, `>=` or `==`, with spaces
/// allowed around it; the identity is the name with its extras.
pub open spec fn versioned_shape(s: Seq<char>) -> Option<RequirementView> {
    let n = run_end(s, 0, CharClass::Name);
    let x = extras_end(s, n);
    let o = run_end(s, x, CharClass::Blank);
    let v = run_end(s, o + 2, CharClass::Blank);
    let ve = run_end(s, v, CharClass::Version);
    if n > 0 && x >= 0 && o + 1 < s.len() && is_operator_start(s[o]) && s[o + 1] == '=' && ve
        > v {
        Some(
            RequirementView {
                line: s,
                name: Some(s.subrange(0, x)),
                constraint: Some(s.subrange(o, o + 2)),
                version: Some(s.subrange(v, ve)),
                revision: None,
                fragment: None,
            },
        )
    } else {
        None
    }
}

/// What a line holds: the first of the VCS, versioned and bare-name shapes
/// that it starts with, or nothing but its text.
pub open spec fn parse_view(s: Seq<char>) -> RequirementView {
    match vcs_shape(s) {
        Some(r) => r,
        None => match versioned_shape(s) {
            Some(r) => r,
            None => {
                let n = run_end(s, 0, CharClass::Name);
                if n > 0 {
                    RequirementView { name: Some(s.subrange(0, n)), ..unmatched(s) }
                } else {
                    unmatched(s)
                }
            },
        },
    }
}

pub(crate) fn push_range(v: &mut Vec<char>, s: &Vec<char>, a: usize, b: usize)
    requires
        a <= b <= s@.len(),
    ensures
        final(v)@ == old(v)@ + s@.subrange(a as int, b as int),
{
    let mut i: usize = a;
    while i < b
        invariant
            a <= i <= b <= s@.len(),
            v@ == old(v)@ + s@.subrange(a as int, i as int),
        decreases b - i,
    {
        v.push(s[i]);
        i = i + 1;
        assert(v@ =~= old(v)@ + s@.subrange(a as int, i as int));
    }
}

fn substring(s: &Vec<char>, a: usize, b: usize) -> (r: String)
    requires
        a <= b <= s@.len(),
    ensures
        r@ == s@.subrange(a as int, b as int),
{
    let mut v: Vec<char> = Vec::new();
    push_range(&mut v, s, a, b);
    assert(v@ =~= s@.subrange(a as int, b as int));
    string_of(v.as_slice())
}

fn scheme_length(s: &Vec<char>) -> (k: usize)
    ensures
        k == scheme_len(s@),
        k > 0 ==> k + 3 <= s@.len(),
{
    if matches_at(s, 0, &vec!['g', 'i', 't', ':', '/', '/']) {
        3
    } else if matches_at(s, 0, &vec!['g', 'i', 't', '+', 'h', 't', 't', 'p', 's', ':', '/', '/']) {
        9
    } else if matches_at(s, 0, &vec!['g', 'i', 't', '+', 's', 's', 'h', ':', '/', '/']) {
        7
    } else if matches_at(s, 0, &vec!['g', 'i', 't', '+', 'g', 'i', 't', ':', '/', '/']) {
        7
    } else {
        0
    }
}

fn parse_vcs(s: &Vec<char>) -> (r: Option<Requirement>)
    ensures
        opt_req_view(r) == vcs_shape(s@),
{
    let k = scheme_length(s);
    if k == 0 {
        return None;
    }
    let a = k + 3;
    let l = scan(s, a, CharClass::Login);
    let mut p = a;
    if l > a && l < s.len() && s[l] == '@' {
        let pe = scan(s, l + 1, CharClass::Path);
        if pe > l + 1 {
            p = l + 1;
        }
    }
    assert(p == vcs_path_start(s@, k + 3));
    let e = scan(s, p, CharClass::Path);
    if e == p {
        return None;
    }
    let mut f = e;
    let mut revision: Option<String> = None;
    if e < s.len() && s[e] == '@' {
        let re = scan(s, e + 1, CharClass::Revision);
        if re > e + 1 {
            revision = Some(substring(s, e + 1, re));
            f = re;
        }
    }
    let mut fragment: Option<String> = None;
    if f < s.len() && s[f] == '#' {
        let fe = scan(s, f + 1, CharClass::Fragment);
        if fe > f + 1 {
            fragment = Some(substring(s, f + 1, fe));
        }
    }
    let mut name: Vec<char> = Vec::new();
    push_range(&mut name, s, 0, a);
    push_range(&mut name, s, p, e);
    Some(
        Requirement {
            line: string_of(s.as_slice()),
            name: Some(string_of(name.as_slice())),
            constraint: None,
            version: None,
            revision,
            fragment,
        },
    )
}

fn parse_versioned(s: &Vec<char>) -> (r: Option<Requirement>)
    ensures
        opt_req_view(r) == versioned_shape(s@),
{
    let n = scan(s, 0, CharClass::Name);
    if n == 0 {
        return None;
    }
    let mut x = n;
    if n < s.len() && s[n] == '[' {
        let w = scan(s, n + 1, CharClass::Word);
        if w > n + 1 && w < s.len() && s[w] == ']' {
            x = w + 1;
        } else {
            return None;
        }
    }
    assert(x == extras_end(s@, n as int));
    let o = scan(s, x, CharClass::Blank);
    if !(o < s.len() && o + 1 < s.len() && (s[o] == '<' || s[o] == '>' || s[o] == '=') && s[o + 1] == '=') {
        return None;
    }
    let v = scan(s, o + 2, CharClass::Blank);
    let ve = scan(s, v, CharClass::Version);
    if ve == v {
        return None;
    }
    Some(
        Requirement {
            line: string_of(s.as_slice()),
            name: Some(substring(s, 0, x)),
            constraint: Some(substring(s, o, o + 2)),
            version: Some(substring(s, v, ve)),
            revision: None,
            fragment: None,
        },
    )
}

impl Requirement {
    /// Reads one line: a VCS reference, else a versioned name, else a bare
    /// name, else nothing but the text.
    pub fn parse(line: &str) -> (r: Requirement)
        ensures
            r@ == parse_view(line@),
    {
        let s = chars_of(line);
        match parse_vcs(&s) {
            Some(r) => r,
            None => match parse_versioned(&s) {
                Some(r) => r,
                None => {
                    let n = scan(&s, 0, CharClass::Name);
                    let name = if n > 0 {
                        Some(substring(&s, 0, n))
                    } else {
                        None
                    };
                    Requirement {
                        line: string_of(s.as_slice()),
                        name,
                        constraint: None,
                        version: None,
                        revision: None,
                        fragment: None,
                    }
                },
            },
        }
    }
}


/// The first position, from `i` on, where `t` occurs in `s`.
pub open spec fn find_from(s: Seq<char>, t: Seq<char>, i: int) -> Option<int>
    decreases s.len() + 1 - i,
{
    if i < 0 || i + t.len() > s.len() {
        None
    } else if s.subrange(i, i + t.len()) == t {
        Some(i)
    } else {
        find_from(s, t, i + 1)
    }
}

/// `s` with the first occurrence of `t` replaced by `u`; `s` itself where `t`
/// does not occur.
pub open spec fn replace_first(s: Seq<char>, t: Seq<char>, u: Seq<char>) -> Seq<char> {
    match find_from(s, t, 0) {
        Some(i) => s.subrange(0, i) + u + s.subrange(i + t.len(), s.len() as int),
        None => s,
    }
}

/// The text of a line after one of its fields goes from `old` to `new`:
/// replaced in place, deleted, or appended.
pub open spec fn swap_text(line: Seq<char>, old: Option<Seq<char>>, new: Option<Seq<char>>) -> Seq<
    char,
> {
    match (old, new) {
        (Some(o), Some(n)) => replace_first(line, o, n),
        (Some(o), None) => replace_first(line, o, Seq::empty()),
        (None, Some(n)) => line + n,
        (None, None) => line,
    }
}

pub open spec fn with_version(r: RequirementView, new: Option<Seq<char>>) -> RequirementView {
    RequirementView { line: swap_text(r.line, r.version, new), version: new, ..r }
}

pub open spec fn with_constraint(r: RequirementView, new: Option<Seq<char>>) -> RequirementView {
    RequirementView { line: swap_text(r.line, r.constraint, new), constraint: new, ..r }
}

/// Like the others, except that a first revision goes right before the
/// fragment's `#`, as `@revision`, or at the end as `@revision` where there
/// is no fragment.
pub open spec fn with_revision(r: RequirementView, new: Option<Seq<char>>) -> RequirementView {
    let line = match (r.revision, new, r.fragment) {
        (None, Some(n), Some(f)) => replace_first(
            r.line,
            seq!['#'] + f,
            seq!['@'] + n + seq!['#'] + f,
        ),
        (None, Some(n), None) => r.line + seq!['@'] + n,
        _ => swap_text(r.line, r.revision, new),
    };
    RequirementView { line, revision: new, ..r }
}

fn replace_first_exec(s: &Vec<char>, t: &Vec<char>, u: &Vec<char>) -> (r: Vec<char>)
    ensures
        r@ == replace_first(s@, t@, u@),
{
    let mut i: usize = 0;
    while t.len() <= s.len() - i
        invariant
            i <= s@.len(),
            find_from(s@, t@, 0) == find_from(s@, t@, i as int),
        decreases s@.len() + 1 - i,
    {
        if matches_at(s, i, t) {
            let mut r: Vec<char> = Vec::new();
            push_range(&mut r, s, 0, i);
            let mut j: usize = 0;
            while j < u.len()
                invariant
                    i + t@.len() <= s@.len(),
                    j <= u@.len(),
                    r@ == s@.subrange(0, i as int) + u@.subrange(0, j as int),
                decreases u@.len() - j,
            {
                r.push(u[j]);
                j = j + 1;
                assert(r@ =~= s@.subrange(0, i as int) + u@.subrange(0, j as int));
            }
            assert(u@.subrange(0, j as int) =~= u@);
            push_range(&mut r, s, i + t.len(), s.len());
            return r;
        }
        assert(t@.len() > 0) by {
            if t@.len() == 0 {
                assert(s@.subrange(i as int, i as int) =~= t@);
            }
        }
        i = i + 1;
    }
    let mut r: Vec<char> = Vec::new();
    push_range(&mut r, s, 0, s.len());
    assert(r@ =~= s@);
    r
}

fn opt_chars(o: Option<&str>) -> (r: Option<Vec<char>>)
    ensures
        match (r, o) {
            (Some(v), Some(x)) => v@ == x@,
            (None, None) => true,
            _ => false,
        },
{
    match o {
        Some(x) => Some(chars_of(x)),
        None => None,
    }
}

fn swap_line(line: &String, old: &Option<String>, new: Option<&str>) -> (r: String)
    ensures
        r@ == swap_text(line@, opt_view(*old), opt_str_view(new)),
{
    let s = chars_of(line.as_str());
    match (old, opt_chars(new)) {
        (Some(o), Some(n)) => {
            let r = replace_first_exec(&s, &chars_of(o.as_str()), &n);
            string_of(r.as_slice())
        },
        (Some(o), None) => {
            let r = replace_first_exec(&s, &chars_of(o.as_str()), &Vec::new());
            proof {
                assert(Seq::<char>::empty() =~= Seq::<char>::empty());
            }
            string_of(r.as_slice())
        },
        (None, Some(n)) => {
            let mut r = s;
            let ghost r0 = r@;
            push_range(&mut r, &n, 0, n.len());
            assert(n@.subrange(0, n@.len() as int) =~= n@);
            string_of(r.as_slice())
        },
        (None, None) => line.clone(),
    }
}

fn own(o: Option<&str>) -> (r: Option<String>)
    ensures
        opt_view(r) == opt_str_view(o),
{
    match o {
        Some(x) => Some(string_of(chars_of(x).as_slice())),
        None => None,
    }
}

impl Requirement {
    /// Sets the version, rewriting the first occurrence of the old one in the
    /// line (deleting it when the new one is absent), or appending the new one
    /// where there was none.
    pub fn set_version(&mut self, new_version: Option<&str>)
        ensures
            final(self)@ == with_version(old(self)@, opt_str_view(new_version)),
    {
        self.line = swap_line(&self.line, &self.version, new_version);
        self.version = own(new_version);
    }

    /// Sets the constraint operator, rewriting the line as
    /// [`Requirement::set_version`] does.
    pub fn set_constraint(&mut self, new_constraint: Option<&str>)
        ensures
            final(self)@ == with_constraint(old(self)@, opt_str_view(new_constraint)),
    {
        self.line = swap_line(&self.line, &self.constraint, new_constraint);
        self.constraint = own(new_constraint);
    }

    /// Sets the VCS revision. A first revision is inserted as `@revision`
    /// right before the fragment's `#`, or appended where there is no fragment.
    pub fn set_revision(&mut self, new_revision: Option<&str>)
        ensures
            final(self)@ == with_revision(old(self)@, opt_str_view(new_revision)),
    {
        match (&self.revision, new_revision, &self.fragment) {
            (None, Some(n), Some(f)) => {
                let s = chars_of(self.line.as_str());
                let fc = chars_of(f.as_str());
                let mut marker: Vec<char> = vec!['#'];
                push_range(&mut marker, &fc, 0, fc.len());
                let mut part: Vec<char> = vec!['@'];
                let nc = chars_of(n);
                push_range(&mut part, &nc, 0, nc.len());
                part.push('#');
                push_range(&mut part, &fc, 0, fc.len());
                proof {
                    assert(fc@.subrange(0, fc@.len() as int) =~= fc@);
                    assert(nc@.subrange(0, nc@.len() as int) =~= nc@);
                    assert(marker@ =~= seq!['#'] + f@);
                    assert(part@ =~= seq!['@'] + n@ + seq!['#'] + f@);
                }
                let r = replace_first_exec(&s, &marker, &part);
                self.line = string_of(r.as_slice());
            },
            (None, Some(n), None) => {
                let mut s = chars_of(self.line.as_str());
                let ghost s0 = s@;
                s.push('@');
                let nc = chars_of(n);
                push_range(&mut s, &nc, 0, nc.len());
                assert(nc@.subrange(0, nc@.len() as int) =~= nc@);
                assert(s@ =~= s0 + seq!['@'] + n@);
                self.line = string_of(s.as_slice());
            },
            _ => {
                self.line = swap_line(&self.line, &self.revision, new_revision);
            },
        }
        self.revision = own(new_revision);
    }
}


/// The pieces of `s` between occurrences of `d`; at least one, the last possibly empty.
pub open spec fn split_on(s: Seq<char>, d: char) -> Seq<Seq<char>>
    decreases s.len(),
{
    if s.len() == 0 {
        seq![Seq::empty()]
    } else {
        let p = split_on(s.drop_last(), d);
        if s.last() == d {
            p.push(Seq::empty())
        } else {
            p.update(p.len() - 1, p.last().push(s.last()))
        }
    }
}

pub open spec fn strip_cr(l: Seq<char>) -> Seq<char> {
    if l.len() > 0 && l.last() == '\r' {
        l.drop_last()
    } else {
        l
    }
}

/// The lines of `s`: the pieces between line feeds, each that ended in a line
/// feed without a carriage return before it, and no empty last piece.
pub open spec fn lines_of(s: Seq<char>) -> Seq<Seq<char>> {
    let p = split_on(s, '\n');
    let n = if p.last().len() == 0 {
        p.len() - 1
    } else {
        p.len() as int
    };
    Seq::new(
        n as nat,
        |i: int|
            if i + 1 < p.len() {
                strip_cr(p[i])
            } else {
                p[i]
            },
    )
}

pub open spec fn views(rs: Seq<Requirement>) -> Seq<RequirementView> {
    rs.map_values(|r: Requirement| r@)
}

fn strip_cr_exec(l: &Vec<char>) -> (r: Vec<char>)
    ensures
        r@ == strip_cr(l@),
{
    let mut r: Vec<char> = Vec::new();
    if l.len() > 0 && l[l.len() - 1] == '\r' {
        push_range(&mut r, l, 0, l.len() - 1);
        assert(r@ =~= l@.drop_last());
    } else {
        push_range(&mut r, l, 0, l.len());
        assert(r@ =~= l@);
    }
    r
}

fn parse_chars(l: &Vec<char>) -> (r: Requirement)
    ensures
        r@ == parse_view(l@),
{
    let text = string_of(l.as_slice());
    Requirement::parse(text.as_str())
}

/// Parses a manifest: one requirement per line, in order, comments and blank
/// lines included.
pub fn parse_requirements(content: &str) -> (r: Vec<Requirement>)
    ensures
        views(r@) =~= lines_of(content@).map_values(|l: Seq<char>| parse_view(l)),
{
    let s = chars_of(content);
    let mut out: Vec<Requirement> = Vec::new();
    let mut cur: Vec<char> = Vec::new();
    let mut i: usize = 0;
    proof {
        assert(s@.subrange(0, 0) =~= Seq::<char>::empty());
    }
    while i < s.len()
        invariant
            i <= s@.len(),
            split_on(s@.subrange(0, i as int), '\n').len() == out@.len() + 1,
            split_on(s@.subrange(0, i as int), '\n').last() == cur@,
            forall|k: int|
                0 <= k < out@.len() ==> out@[k]@ == parse_view(
                    strip_cr(#[trigger] split_on(s@.subrange(0, i as int), '\n')[k]),
                ),
        decreases s@.len() - i,
    {
        let ghost prev = s@.subrange(0, i as int);
        let ghost pieces_before = split_on(prev, '\n');
        assert(s@.subrange(0, i + 1).drop_last() =~= prev);
        assert(s@.subrange(0, i + 1).last() == s@[i as int]);
        if s[i] == '\n' {
            let l = strip_cr_exec(&cur);
            out.push(parse_chars(&l));
            cur = Vec::new();
            proof {
                let pieces_after = split_on(s@.subrange(0, i + 1), '\n');
                assert(pieces_after == pieces_before.push(Seq::empty()));
                assert forall|k: int| 0 <= k < out@.len() implies out@[k]@ == parse_view(
                    strip_cr(#[trigger] pieces_after[k]),
                ) by {
                    if k < out@.len() - 1 {
                        assert(pieces_after[k] == pieces_before[k]);
                    }
                }
            }
        } else {
            cur.push(s[i]);
            proof {
                let pieces_after = split_on(s@.subrange(0, i + 1), '\n');
                assert(pieces_after == pieces_before.update(pieces_before.len() - 1, pieces_before.last().push(s@[i as int])));
                assert forall|k: int| 0 <= k < out@.len() implies out@[k]@ == parse_view(
                    strip_cr(#[trigger] pieces_after[k]),
                ) by {
                    assert(pieces_after[k] == pieces_before[k]);
                }
            }
        }
        i = i + 1;
    }
    assert(s@.subrange(0, s@.len() as int) =~= s@);
    if cur.len() > 0 {
        out.push(parse_chars(&cur));
    }
    out
}

} // verus!
