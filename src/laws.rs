//! Laws relating parsing, diffing, merging and formatting.
use vstd::prelude::*;
use crate::differ::{changes, diff_view, last_index, removals, DiffOpView};
use crate::merger::{join_lines, kept, line_texts, merge_steps, merge_view};
use crate::requirement::{lines_of, parse_view, split_on, strip_cr, RequirementView};
use crate::version::{is_greater, semver_order};

verus! {

/// No two entries of `rs` share an identity.
pub open spec fn unique_names(rs: Seq<RequirementView>) -> bool {
    forall|i: int, j: int|
        0 <= i < rs.len() && 0 <= j < rs.len() && i != j && (#[trigger] rs[i]).name is Some
            ==> rs[i].name != (#[trigger] rs[j]).name
}

proof fn lemma_last_index_unique(rs: Seq<RequirementView>, j: int)
    requires
        unique_names(rs),
        0 <= j < rs.len(),
        rs[j].name is Some,
    ensures
        last_index(rs, rs[j].name.unwrap()) == Some(j),
    decreases rs.len(),
{
    if j < rs.len() - 1 {
        let d = rs.drop_last();
        assert(rs[rs.len() - 1].name != rs[j].name);
        assert(unique_names(d)) by {
            assert forall|a: int, b: int|
                0 <= a < d.len() && 0 <= b < d.len() && a != b && (#[trigger] d[a]).name is Some
                    implies d[a].name != (#[trigger] d[b]).name by {
                assert(rs[a] == d[a] && rs[b] == d[b]);
            }
        }
        lemma_last_index_unique(d, j);
    }
}

proof fn lemma_changes_self(x: Seq<RequirementView>, k: int)
    requires
        unique_names(x),
        0 <= k <= x.len(),
    ensures
        changes(x, x.subrange(0, k)) == Seq::<DiffOpView>::empty(),
    decreases k,
{
    if k > 0 {
        let pre = x.subrange(0, k);
        assert(pre.drop_last() =~= x.subrange(0, k - 1));
        lemma_changes_self(x, k - 1);
        if x[k - 1].name is Some {
            lemma_last_index_unique(x, k - 1);
        }
    }
}

proof fn lemma_removals_self(x: Seq<RequirementView>, old: Seq<RequirementView>)
    requires
        unique_names(x),
        forall|i: int| 0 <= i < old.len() ==> x.contains(#[trigger] old[i]),
    ensures
        removals(old, x) == Seq::<DiffOpView>::empty(),
    decreases old.len(),
{
    if old.len() > 0 {
        let d = old.drop_last();
        assert forall|i: int| 0 <= i < d.len() implies x.contains(#[trigger] d[i]) by {
            assert(old[i] == d[i]);
        }
        lemma_removals_self(x, d);
        let r = old.last();
        assert(x.contains(old[old.len() - 1]));
        if r.name is Some {
            let j = choose|j: int| 0 <= j < x.len() && x[j] == r;
            lemma_last_index_unique(x, j);
        }
    }
}

proof fn lemma_kept_nothing_removed(rs: Seq<RequirementView>)
    ensures
        kept(rs, Seq::empty()) == rs,
    decreases rs.len(),
{
    if rs.len() > 0 {
        lemma_kept_nothing_removed(rs.drop_last());
        assert(rs.drop_last().push(rs.last()) =~= rs);
    }
}

/// Merging the change-set from a manifest to itself into that same manifest
/// leaves it as it was.
pub proof fn law_merge_of_no_change(x: Seq<RequirementView>)
    requires
        unique_names(x),
    ensures
        merge_view(x, diff_view(x, x)) == x,
{
    lemma_changes_self(x, x.len() as int);
    assert(x.subrange(0, x.len() as int) =~= x);
    assert forall|i: int| 0 <= i < x.len() implies x.contains(#[trigger] x[i]) by {}
    lemma_removals_self(x, x);
    assert(diff_view(x, x) =~= Seq::<DiffOpView>::empty());
    lemma_kept_nothing_removed(x);
    assert(merge_view(x, Seq::empty()) =~= x);
}

/// A manifest text whose lines end in line feeds alone and that does not end
/// in one.
pub open spec fn plain_lines(s: Seq<char>) -> bool {
    (s.len() > 0 ==> s.last() != '\n') && forall|i: int|
        0 <= i < s.len() - 1 && #[trigger] s[i] == '\r' ==> s[i + 1] != '\n'
}

proof fn lemma_split_last(s: Seq<char>, d: char)
    ensures
        split_on(s, d).len() >= 1,
        split_on(s, d).last().len() > 0 ==> s.len() > 0 && split_on(s, d).last().last()
            == s.last(),
        s.len() > 0 && s.last() != d ==> split_on(s, d).last().len() > 0,
    decreases s.len(),
{
    if s.len() > 0 {
        lemma_split_last(s.drop_last(), d);
    }
}

proof fn lemma_split_no_cr(s: Seq<char>)
    requires
        forall|i: int| 0 <= i < s.len() - 1 && #[trigger] s[i] == '\r' ==> s[i + 1] != '\n',
    ensures
        forall|i: int|
            0 <= i < split_on(s, '\n').len() - 1 ==> strip_cr(#[trigger] split_on(s, '\n')[i])
                == split_on(s, '\n')[i],
    decreases s.len(),
{
    if s.len() > 0 {
        let t = s.drop_last();
        assert forall|i: int| 0 <= i < t.len() - 1 && #[trigger] t[i] == '\r' implies t[i + 1]
            != '\n' by {
            assert(s[i] == t[i] && s[i + 1] == t[i + 1]);
        }
        lemma_split_no_cr(t);
        lemma_split_last(t, '\n');
        let p = split_on(t, '\n');
        if s.last() == '\n' {
            if p.last().len() > 0 {
                assert(s[t.len() - 1] == t.last());
            }
        }
    }
}

proof fn lemma_join_split(s: Seq<char>)
    ensures
        join_lines(split_on(s, '\n')) == s,
    decreases s.len(),
{
    if s.len() > 0 {
        let t = s.drop_last();
        lemma_join_split(t);
        lemma_split_last(t, '\n');
        let p = split_on(t, '\n');
        let q = split_on(s, '\n');
        if s.last() == '\n' {
            assert(q.drop_last() =~= p);
            assert(s =~= t + seq!['\n'] + Seq::<char>::empty());
        } else {
            assert(q.drop_last() =~= p.drop_last());
            if p.len() == 1 {
                assert(s =~= p[0].push(s.last()));
            } else {
                assert(t == join_lines(p.drop_last()) + seq!['\n'] + p.last());
                assert(q.last() == p.last().push(s.last()));
                assert(s =~= t.push(s.last()));
                assert((join_lines(p.drop_last()) + seq!['\n'] + p.last()).push(s.last()) =~= join_lines(
                    p.drop_last(),
                ) + seq!['\n'] + p.last().push(s.last()));
                assert(s =~= join_lines(p.drop_last()) + seq!['\n'] + p.last().push(s.last()));
            }
        }
    }
}

/// Writing out the parse of a text gives that text back, for texts whose
/// lines end in line feeds alone and that do not end in one.
pub proof fn law_format_of_parse(s: Seq<char>)
    requires
        plain_lines(s),
    ensures
        join_lines(line_texts(lines_of(s).map_values(|l: Seq<char>| parse_view(l)))) == s,
{
    let p = split_on(s, '\n');
    lemma_split_last(s, '\n');
    lemma_split_no_cr(s);
    lemma_join_split(s);
    if s.len() == 0 {
        assert(lines_of(s) =~= Seq::<Seq<char>>::empty());
        assert(line_texts(lines_of(s).map_values(|l: Seq<char>| parse_view(l))) =~= Seq::<
            Seq<char>,
        >::empty());
    } else {
        assert(lines_of(s) =~= p);
        assert forall|i: int| 0 <= i < p.len() implies #[trigger] parse_view(p[i]).line
            == p[i] by {}
        assert(line_texts(lines_of(s).map_values(|l: Seq<char>| parse_view(l))) =~= p);
    }
}


/// An entry as parsing gives it, of identity `n`, pinned at version `v`.
pub open spec fn pinned(r: RequirementView, n: Seq<char>, v: Seq<char>) -> bool {
    r == parse_view(r.line) && r.name == Some(n) && r.version == Some(v) && r.revision is None
}

/// The merge of one-entry manifests: base `b`, working copy `c`, other `o`.
pub open spec fn merge_single(
    b: RequirementView,
    c: RequirementView,
    o: RequirementView,
) -> Seq<RequirementView> {
    merge_view(seq![c], diff_view(seq![b], seq![o]))
}

proof fn lemma_single_diff(b: RequirementView, o: RequirementView, n: Seq<char>)
    requires
        b.name == Some(n),
        o.name == Some(n),
    ensures
        diff_view(seq![b], seq![o]) == if b.line != o.line {
            seq![DiffOpView::Update(o)]
        } else {
            Seq::<DiffOpView>::empty()
        },
{
    let ob = seq![b];
    let oo = seq![o];
    assert(oo.drop_last() =~= Seq::<RequirementView>::empty());
    assert(ob.drop_last() =~= Seq::<RequirementView>::empty());
    assert(oo.last() == o && ob.last() == b && ob[0] == b);
    assert(last_index(ob, n) == Some(0int));
    assert(last_index(oo, n) == Some(0int));
    assert(changes(ob, oo.drop_last()) == Seq::<DiffOpView>::empty());
    assert(removals(ob.drop_last(), oo) == Seq::<DiffOpView>::empty());
    assert(removals(ob, oo) == Seq::<DiffOpView>::empty());
    assert(diff_view(seq![b], seq![o]) =~= if b.line != o.line {
        seq![DiffOpView::Update(o)]
    } else {
        Seq::<DiffOpView>::empty()
    });
}

proof fn lemma_single_update(c: RequirementView, o: RequirementView, n: Seq<char>)
    requires
        c.name == Some(n),
        o.name == Some(n),
    ensures
        merge_view(seq![c], seq![DiffOpView::Update(o)]).len() == 1,
        merge_view(seq![c], seq![DiffOpView::Update(o)])[0] == crate::merger::update_view(c, o),
        merge_view(seq![c], Seq::empty()) == seq![c],
{
    let ops = seq![DiffOpView::Update(o)];
    let oc = seq![c];
    let u = crate::merger::update_view(c, o);
    assert(ops.drop_last() =~= Seq::<DiffOpView>::empty());
    assert(ops.last() == DiffOpView::Update(o));
    assert(oc.drop_last() =~= Seq::<RequirementView>::empty());
    assert(oc.last() == c && oc[0] == c);
    assert(last_index(oc, n) == Some(0int));
    let st0 = merge_steps(oc, Seq::empty());
    assert(st0.current == oc && st0.removed == Seq::<Seq<char>>::empty());
    let st = merge_steps(oc, ops);
    assert(st.current == oc.update(0, u));
    assert(st.current =~= seq![u]);
    assert(st.removed == Seq::<Seq<char>>::empty());
    assert(st.added == Seq::<RequirementView>::empty());
    assert(u.name == Some(n));
    assert(st.current.drop_last() =~= Seq::<RequirementView>::empty());
    assert(st.current.last() == u);
    assert(kept(st.current.drop_last(), st.removed) == Seq::<RequirementView>::empty());
    assert(!st.removed.contains(n));
    assert(kept(st.current, st.removed) =~= st.current);
    assert(kept(oc.drop_last(), Seq::empty()) == Seq::<RequirementView>::empty());
    assert(!Seq::<Seq<char>>::empty().contains(n));
    assert(kept(oc, Seq::empty()) =~= oc);
    assert(merge_view(seq![c], ops) =~= st.current);
    assert(merge_view(seq![c], Seq::empty()) =~= seq![c]);
}

/// Where the other side raised a dependency from `v1` to a greater `v2` and
/// the working copy still has `v1`, the merge has `v2`.
pub proof fn law_upgrade_is_taken(
    b: RequirementView,
    o: RequirementView,
    n: Seq<char>,
    v1: Seq<char>,
    v2: Seq<char>,
)
    requires
        pinned(b, n, v1),
        pinned(o, n, v2),
        is_greater(v2, v1),
    ensures
        merge_single(b, b, o).len() == 1,
        merge_single(b, b, o)[0].version == Some(v2),
{
    lemma_single_diff(b, o, n);
    lemma_single_update(b, o, n);
}

/// Where the working copy has `v2` and the other side, like the base, has a
/// lower `v1`, the merge keeps `v2`. The ordering of `v1` and `v2` is taken
/// to be asymmetric where both are semantic versions, as semver's total order
/// makes it.
pub proof fn law_no_downgrade(
    b: RequirementView,
    c: RequirementView,
    o: RequirementView,
    n: Seq<char>,
    v1: Seq<char>,
    v2: Seq<char>,
)
    requires
        pinned(b, n, v1),
        pinned(c, n, v2),
        pinned(o, n, v1),
        is_greater(v2, v1),
        semver_order(v2, v1) is Some <==> semver_order(v1, v2) is Some,
        semver_order(v2, v1) == Some(true) ==> semver_order(v1, v2) == Some(false),
    ensures
        merge_single(b, c, o).len() == 1,
        merge_single(b, c, o)[0].version == Some(v2),
{
    lemma_single_diff(b, o, n);
    lemma_single_update(c, o, n);
    crate::version::lemma_parts_greater_asymmetric(
        crate::version::numeric_parts(v2),
        crate::version::numeric_parts(v1),
    );
    assert(!is_greater(v1, v2));
}

/// The texts of the entries of `rs` that have no identity, in order.
pub open spec fn unmatched_lines(rs: Seq<RequirementView>) -> Seq<Seq<char>>
    decreases rs.len(),
{
    if rs.len() == 0 {
        Seq::empty()
    } else if rs.last().name is None {
        unmatched_lines(rs.drop_last()).push(rs.last().line)
    } else {
        unmatched_lines(rs.drop_last())
    }
}

proof fn lemma_steps_keep_unmatched(cur0: Seq<RequirementView>, ops: Seq<DiffOpView>)
    ensures
        merge_steps(cur0, ops).current.len() == cur0.len(),
        forall|i: int|
            0 <= i < cur0.len() ==> (#[trigger] merge_steps(cur0, ops).current[i]).name
                == cur0[i].name,
        forall|i: int|
            0 <= i < cur0.len() && cur0[i].name is None ==> #[trigger] merge_steps(
                cur0,
                ops,
            ).current[i] == cur0[i],
        forall|i: int|
            0 <= i < merge_steps(cur0, ops).added.len() ==> (#[trigger] merge_steps(
                cur0,
                ops,
            ).added[i]).name is Some,
    decreases ops.len(),
{
    if ops.len() > 0 {
        lemma_steps_keep_unmatched(cur0, ops.drop_last());
        crate::differ::lemma_last_index_bounds(cur0, match ops.last() {
            DiffOpView::Update(r) => r.name.unwrap_or(Seq::empty()),
            _ => Seq::empty(),
        });
    }
}

proof fn lemma_unmatched_same(a: Seq<RequirementView>, b: Seq<RequirementView>)
    requires
        a.len() == b.len(),
        forall|i: int| 0 <= i < a.len() ==> (#[trigger] a[i]).name == b[i].name,
        forall|i: int| 0 <= i < a.len() && a[i].name is None ==> #[trigger] a[i] == b[i],
    ensures
        unmatched_lines(a) == unmatched_lines(b),
    decreases a.len(),
{
    if a.len() > 0 {
        let (da, db) = (a.drop_last(), b.drop_last());
        assert forall|i: int| 0 <= i < da.len() implies (#[trigger] da[i]).name == db[i].name by {
            assert(a[i] == da[i] && b[i] == db[i]);
        }
        assert forall|i: int| 0 <= i < da.len() && da[i].name is None implies #[trigger] da[i]
            == db[i] by {
            assert(a[i] == da[i] && b[i] == db[i]);
        }
        lemma_unmatched_same(da, db);
        assert(a[a.len() - 1].name == b[a.len() - 1].name);
    }
}

proof fn lemma_unmatched_kept(rs: Seq<RequirementView>, removed: Seq<Seq<char>>)
    ensures
        unmatched_lines(kept(rs, removed)) == unmatched_lines(rs),
    decreases rs.len(),
{
    if rs.len() > 0 {
        lemma_unmatched_kept(rs.drop_last(), removed);
        let k = kept(rs.drop_last(), removed);
        assert(k.push(rs.last()).drop_last() =~= k);
    }
}

proof fn lemma_unmatched_append(a: Seq<RequirementView>, b: Seq<RequirementView>)
    requires
        forall|i: int| 0 <= i < b.len() ==> (#[trigger] b[i]).name is Some,
    ensures
        unmatched_lines(a + b) == unmatched_lines(a),
    decreases b.len(),
{
    if b.len() > 0 {
        let d = b.drop_last();
        assert forall|i: int| 0 <= i < d.len() implies (#[trigger] d[i]).name is Some by {
            assert(b[i] == d[i]);
        }
        lemma_unmatched_append(a, d);
        assert((a + b).drop_last() =~= a + d);
        assert(b[b.len() - 1].name is Some);
    }
}

/// Lines that match none of the shapes (comments, blank lines) come through a
/// merge unchanged and in their order, whatever the change-set.
pub proof fn law_unmatched_lines_kept(cur0: Seq<RequirementView>, ops: Seq<DiffOpView>)
    ensures
        unmatched_lines(merge_view(cur0, ops)) == unmatched_lines(cur0),
{
    let st = merge_steps(cur0, ops);
    lemma_steps_keep_unmatched(cur0, ops);
    lemma_unmatched_same(st.current, cur0);
    lemma_unmatched_kept(st.current, st.removed);
    lemma_unmatched_append(kept(st.current, st.removed), st.added);
}

} // verus!
