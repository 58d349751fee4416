//! Applying a change-set to the working manifest under the upgrade-only
//! policy, and writing a manifest back out.
use vstd::prelude::*;
use crate::differ::{index_of, last_index, lemma_last_index_bounds, op_views, DiffOp, DiffOpView};
use crate::requirement::{
    push_range, views, with_constraint, with_revision, with_version, Requirement,
    RequirementView,
};
use crate::text::{chars_of, string_of};
use crate::version::{is_greater, version_greater};

verus! {

/// What becomes of the working entry `cur` when the other side changed it to
/// `new`: an operator always follows; a revision or a version only rises; an
/// entry with neither drops its constraint, revision and version.
pub open spec fn update_view(cur: RequirementView, new: RequirementView) -> RequirementView {
    let c1 = match new.constraint {
        Some(k) => with_constraint(cur, Some(k)),
        None => cur,
    };
    match (new.revision, new.version) {
        (Some(rv), _) => match c1.revision {
            Some(old) => if is_greater(rv, old) {
                with_revision(c1, Some(rv))
            } else {
                c1
            },
            None => with_revision(c1, Some(rv)),
        },
        (None, Some(v)) => match c1.version {
            Some(old) => if is_greater(v, old) {
                with_version(c1, Some(v))
            } else {
                c1
            },
            None => with_version(c1, Some(v)),
        },
        (None, None) => with_version(with_revision(with_constraint(c1, None), None), None),
    }
}

/// The entries of a manifest, the identities to remove and the entries to
/// add, while a change-set is being applied.
pub struct MergeState {
    pub current: Seq<RequirementView>,
    pub removed: Seq<Seq<char>>,
    pub added: Seq<RequirementView>,
}

/// The state after the operations `ops`, in order, applied to `cur0`; the
/// positions of identities are those of `cur0`.
pub open spec fn merge_steps(cur0: Seq<RequirementView>, ops: Seq<DiffOpView>) -> MergeState
    decreases ops.len(),
{
    if ops.len() == 0 {
        MergeState { current: cur0, removed: Seq::empty(), added: Seq::empty() }
    } else {
        let st = merge_steps(cur0, ops.drop_last());
        match ops.last() {
            DiffOpView::Update(r) => match r.name {
                Some(n) => match last_index(cur0, n) {
                    Some(i) => MergeState {
                        current: st.current.update(i, update_view(st.current[i], r)),
                        ..st
                    },
                    None => st,
                },
                None => st,
            },
            DiffOpView::Add(r) => match r.name {
                Some(n) => if last_index(cur0, n) is None {
                    MergeState { added: st.added.push(r), ..st }
                } else {
                    st
                },
                None => st,
            },
            DiffOpView::Remove(n) => MergeState { removed: st.removed.push(n), ..st },
        }
    }
}

/// The entries of `rs` whose identity is not among `removed`, in order.
pub open spec fn kept(rs: Seq<RequirementView>, removed: Seq<Seq<char>>) -> Seq<RequirementView>
    decreases rs.len(),
{
    if rs.len() == 0 {
        Seq::empty()
    } else {
        let k = kept(rs.drop_last(), removed);
        match rs.last().name {
            Some(n) => if removed.contains(n) {
                k
            } else {
                k.push(rs.last())
            },
            None => k.push(rs.last()),
        }
    }
}

/// The manifest `cur0` after the change-set `ops`: updated in place, removed
/// entries taken out, additions at the end.
pub open spec fn merge_view(cur0: Seq<RequirementView>, ops: Seq<DiffOpView>) -> Seq<
    RequirementView,
> {
    let st = merge_steps(cur0, ops);
    kept(st.current, st.removed) + st.added
}

pub open spec fn same_names(a: Seq<RequirementView>, b: Seq<RequirementView>) -> bool {
    a.len() == b.len() && forall|i: int| 0 <= i < a.len() ==> #[trigger] a[i].name == b[i].name
}

pub proof fn lemma_last_index_same_names(
    a: Seq<RequirementView>,
    b: Seq<RequirementView>,
    n: Seq<char>,
)
    requires
        same_names(a, b),
    ensures
        last_index(a, n) == last_index(b, n),
    decreases a.len(),
{
    if a.len() > 0 {
        assert(a.last().name == b.last().name);
        assert(same_names(a.drop_last(), b.drop_last()));
        lemma_last_index_same_names(a.drop_last(), b.drop_last(), n);
    }
}

fn apply_update(current: &mut Requirement, new: &Requirement)
    ensures
        final(current)@ == update_view(old(current)@, new@),
{
    match &new.constraint {
        Some(k) => current.set_constraint(Some(k.as_str())),
        None => {},
    }
    match &new.revision {
        Some(rv) => {
            let rises = match &current.revision {
                Some(c) => version_greater(rv.as_str(), c.as_str()),
                None => true,
            };
            if rises {
                current.set_revision(Some(rv.as_str()));
            }
        },
        None => match &new.version {
            Some(v) => {
                let rises = match &current.version {
                    Some(c) => version_greater(v.as_str(), c.as_str()),
                    None => true,
                };
                if rises {
                    current.set_version(Some(v.as_str()));
                }
            },
            None => {
                current.set_constraint(None);
                current.set_revision(None);
                current.set_version(None);
            },
        },
    }
}

pub open spec fn name_views(ns: Seq<String>) -> Seq<Seq<char>> {
    ns.map_values(|s: String| s@)
}

fn contains_name(ns: &Vec<String>, n: &String) -> (r: bool)
    ensures
        r == name_views(ns@).contains(n@),
{
    let mut i: usize = 0;
    while i < ns.len()
        invariant
            i <= ns@.len(),
            forall|j: int| 0 <= j < i ==> name_views(ns@)[j] != n@,
        decreases ns@.len() - i,
    {
        if ns[i].eq(n) {
            assert(name_views(ns@)[i as int] == n@);
            return true;
        }
        i = i + 1;
    }
    false
}

/// Applies the change-set `diff` to `current`: updates to the entries that
/// `current` has under the upgrade-only policy, removals of the identities
/// named, and the additions whose identity `current` lacks, at the end.
pub fn merge(current: &mut Vec<Requirement>, diff: Vec<DiffOp>)
    ensures
        views(final(current)@) == merge_view(views(old(current)@), op_views(diff@)),
{
    let ghost cur0 = views(current@);
    let ghost ops = op_views(diff@);
    let mut removed: Vec<String> = Vec::new();
    let mut added: Vec<Requirement> = Vec::new();
    let mut i: usize = 0;
    assert(ops.subrange(0, 0) =~= Seq::<DiffOpView>::empty());
    while i < diff.len()
        invariant
            i <= diff@.len(),
            cur0 == views(old(current)@),
            ops == op_views(diff@),
            same_names(views(current@), cur0),
            views(current@) == merge_steps(cur0, ops.subrange(0, i as int)).current,
            name_views(removed@) == merge_steps(cur0, ops.subrange(0, i as int)).removed,
            views(added@) == merge_steps(cur0, ops.subrange(0, i as int)).added,
        decreases diff@.len() - i,
    {
        let ghost st = merge_steps(cur0, ops.subrange(0, i as int));
        assert(ops.subrange(0, i + 1).drop_last() =~= ops.subrange(0, i as int));
        assert(ops.subrange(0, i + 1).last() == diff@[i as int]@);
        match &diff[i] {
            DiffOp::Update(r) => match &r.name {
                Some(n) => match index_of(current, n) {
                    Some(j) => {
                        proof {
                            lemma_last_index_same_names(views(current@), cur0, n@);
                            lemma_last_index_bounds(cur0, n@);
                        }
                        let ghost before = views(current@);
                        let mut entry = current[j].duplicate();
                        apply_update(&mut entry, r);
                        current.set(j, entry);
                        assert(views(current@) =~= before.update(
                            j as int,
                            update_view(before[j as int], r@),
                        ));
                    },
                    None => {
                        proof {
                            lemma_last_index_same_names(views(current@), cur0, n@);
                        }
                    },
                },
                None => {},
            },
            DiffOp::Add(r) => match &r.name {
                Some(n) => match index_of(current, n) {
                    Some(_) => {
                        proof {
                            lemma_last_index_same_names(views(current@), cur0, n@);
                        }
                    },
                    None => {
                        proof {
                            lemma_last_index_same_names(views(current@), cur0, n@);
                        }
                        let ghost before = views(added@);
                        added.push(r.duplicate());
                        assert(views(added@) =~= before.push(r@));
                    },
                },
                None => {},
            },
            DiffOp::Remove(n) => {
                let ghost before = name_views(removed@);
                removed.push(n.clone());
                assert(name_views(removed@) =~= before.push(n@));
            },
        }
        i = i + 1;
    }
    assert(ops.subrange(0, diff@.len() as int) =~= ops);
    let ghost st = merge_steps(cur0, ops);
    let ghost cv = views(current@);
    let mut result: Vec<Requirement> = Vec::new();
    let mut k: usize = 0;
    assert(views(result@) =~= kept(cv.subrange(0, 0), st.removed));
    while k < current.len()
        invariant
            k <= current@.len(),
            cv == views(current@),
            name_views(removed@) == st.removed,
            views(result@) =~= kept(cv.subrange(0, k as int), st.removed),
        decreases current@.len() - k,
    {
        let ghost before = views(result@);
        assert(cv.subrange(0, k + 1).drop_last() =~= cv.subrange(0, k as int));
        assert(cv.subrange(0, k + 1).last() == current@[k as int]@);
        let drop = match &current[k].name {
            Some(n) => contains_name(&removed, n),
            None => false,
        };
        if !drop {
            result.push(current[k].duplicate());
            assert(views(result@) =~= before.push(current@[k as int]@));
        }
        k = k + 1;
    }
    assert(cv.subrange(0, current@.len() as int) =~= cv);
    let ghost front = views(result@);
    let mut a: usize = 0;
    while a < added.len()
        invariant
            a <= added@.len(),
            views(result@) =~= front + views(added@).subrange(0, a as int),
        decreases added@.len() - a,
    {
        let ghost before = views(result@);
        result.push(added[a].duplicate());
        assert(views(added@).subrange(0, a + 1) =~= views(added@).subrange(0, a as int).push(
            added@[a as int]@,
        ));
        assert(views(result@) =~= before.push(added@[a as int]@));
        a = a + 1;
    }
    assert(views(added@).subrange(0, added@.len() as int) =~= views(added@));
    *current = result;
}

/// The line texts of `rs`, joined with line feeds.
pub open spec fn join_lines(ls: Seq<Seq<char>>) -> Seq<char>
    decreases ls.len(),
{
    if ls.len() == 0 {
        Seq::empty()
    } else if ls.len() == 1 {
        ls[0]
    } else {
        join_lines(ls.drop_last()) + seq!['\n'] + ls.last()
    }
}

pub open spec fn line_texts(rs: Seq<RequirementView>) -> Seq<Seq<char>> {
    rs.map_values(|r: RequirementView| r.line)
}

/// Writes a manifest: the lines of `reqs`, in order, joined with line feeds.
pub fn format_requirements(reqs: &[Requirement]) -> (r: String)
    ensures
        r@ == join_lines(line_texts(views(reqs@))),
{
    let ghost ls = line_texts(views(reqs@));
    let mut out: Vec<char> = Vec::new();
    let mut i: usize = 0;
    while i < reqs.len()
        invariant
            i <= reqs@.len(),
            ls == line_texts(views(reqs@)),
            out@ == join_lines(ls.subrange(0, i as int)),
        decreases reqs@.len() - i,
    {
        assert(ls.subrange(0, i + 1).drop_last() =~= ls.subrange(0, i as int));
        assert(ls[i as int] == reqs@[i as int].line@);
        if i > 0 {
            out.push('\n');
        }
        let ghost before = out@;
        let l = chars_of(reqs[i].line.as_str());
        push_range(&mut out, &l, 0, l.len());
        assert(l@.subrange(0, l@.len() as int) =~= l@);
        if i == 0 {
            assert(out@ =~= join_lines(ls.subrange(0, 1)));
        } else {
            assert(out@ =~= join_lines(ls.subrange(0, i + 1)));
        }
        i = i + 1;
    }
    assert(ls.subrange(0, reqs@.len() as int) =~= ls);
    string_of(out.as_slice())
}

} // verus!
