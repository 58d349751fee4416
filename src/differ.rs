//! The change-set between two manifests, keyed by dependency identity.
use vstd::prelude::*;
use crate::requirement::{opt_view, views, Requirement, RequirementView};

verus! {

/// One change from a base manifest to another.
pub enum DiffOp {
    /// A dependency that the other manifest has and the base has not.
    Add(Requirement),
    /// The identity of a dependency that the base has and the other has not.
    Remove(String),
    /// A dependency whose line differs between the two.
    Update(Requirement),
}

pub enum DiffOpView {
    Add(RequirementView),
    Remove(Seq<char>),
    Update(RequirementView),
}

impl View for DiffOp {
    type V = DiffOpView;

    open spec fn view(&self) -> DiffOpView {
        match self {
            DiffOp::Add(r) => DiffOpView::Add(r@),
            DiffOp::Remove(n) => DiffOpView::Remove(n@),
            DiffOp::Update(r) => DiffOpView::Update(r@),
        }
    }
}

pub open spec fn op_views(ops: Seq<DiffOp>) -> Seq<DiffOpView> {
    ops.map_values(|o: DiffOp| o@)
}

/// The position of the last entry of `rs` with identity `n`.
pub open spec fn last_index(rs: Seq<RequirementView>, n: Seq<char>) -> Option<int>
    decreases rs.len(),
{
    if rs.len() == 0 {
        None
    } else if rs.last().name == Some(n) {
        Some(rs.len() - 1)
    } else {
        last_index(rs.drop_last(), n)
    }
}

pub proof fn lemma_last_index_bounds(rs: Seq<RequirementView>, n: Seq<char>)
    ensures
        last_index(rs, n) matches Some(j) ==> 0 <= j < rs.len() && rs[j].name == Some(n),
    decreases rs.len(),
{
    if rs.len() > 0 && rs.last().name != Some(n) {
        lemma_last_index_bounds(rs.drop_last(), n);
    }
}

/// The additions and updates, in the order of `new`: an entry whose identity
/// `old` lacks is added; one whose line differs from `old`'s last entry of
/// that identity is an update.
pub open spec fn changes(old: Seq<RequirementView>, new: Seq<RequirementView>) -> Seq<DiffOpView>
    decreases new.len(),
{
    if new.len() == 0 {
        Seq::empty()
    } else {
        let prev = changes(old, new.drop_last());
        let r = new.last();
        match r.name {
            None => prev,
            Some(n) => match last_index(old, n) {
                None => prev.push(DiffOpView::Add(r)),
                Some(j) => if old[j].line != r.line {
                    prev.push(DiffOpView::Update(r))
                } else {
                    prev
                },
            },
        }
    }
}

/// The removals, in the order of `old`: each identity that `new` lacks.
pub open spec fn removals(old: Seq<RequirementView>, new: Seq<RequirementView>) -> Seq<DiffOpView>
    decreases old.len(),
{
    if old.len() == 0 {
        Seq::empty()
    } else {
        let prev = removals(old.drop_last(), new);
        match old.last().name {
            Some(n) => if last_index(new, n) is None {
                prev.push(DiffOpView::Remove(n))
            } else {
                prev
            },
            None => prev,
        }
    }
}

pub open spec fn diff_view(old: Seq<RequirementView>, new: Seq<RequirementView>) -> Seq<
    DiffOpView,
> {
    changes(old, new) + removals(old, new)
}

/// The position of the last entry of `reqs` whose identity is `name`.
pub fn index_of(reqs: &[Requirement], name: &String) -> (r: Option<usize>)
    ensures
        match r {
            Some(i) => last_index(views(reqs@), name@) == Some(i as int),
            None => last_index(views(reqs@), name@) is None,
        },
{
    let ghost vs = views(reqs@);
    let mut i: usize = reqs.len();
    assert(vs.subrange(0, i as int) =~= vs);
    while i > 0
        invariant
            i <= reqs@.len(),
            vs == views(reqs@),
            last_index(vs, name@) == last_index(vs.subrange(0, i as int), name@),
        decreases i,
    {
        let ghost pre = vs.subrange(0, i as int);
        assert(pre.drop_last() =~= vs.subrange(0, i - 1));
        i = i - 1;
        let found = match &reqs[i].name {
            Some(x) => x.eq(name),
            None => false,
        };
        if found {
            return Some(i);
        }
    }
    None
}

fn copy_opt(o: &Option<String>) -> (r: Option<String>)
    ensures
        opt_view(r) == opt_view(*o),
{
    match o {
        Some(s) => Some(s.clone()),
        None => None,
    }
}

impl Requirement {
    /// A copy with the same fields.
    pub fn duplicate(&self) -> (r: Requirement)
        ensures
            r@ == self@,
    {
        Requirement {
            line: self.line.clone(),
            name: copy_opt(&self.name),
            constraint: copy_opt(&self.constraint),
            version: copy_opt(&self.version),
            revision: copy_opt(&self.revision),
            fragment: copy_opt(&self.fragment),
        }
    }
}

/// The change-set from `old` to `new`: additions and updates in `new`'s order,
/// then removals in `old`'s order. Entries without identity take no part.
pub fn differ(old: &[Requirement], new: &[Requirement]) -> (r: Vec<DiffOp>)
    ensures
        op_views(r@) == diff_view(views(old@), views(new@)),
{
    let ghost ov = views(old@);
    let ghost nv = views(new@);
    let mut diff: Vec<DiffOp> = Vec::new();
    let mut i: usize = 0;
    assert(op_views(diff@) =~= changes(ov, nv.subrange(0, 0)));
    while i < new.len()
        invariant
            i <= new@.len(),
            ov == views(old@),
            nv == views(new@),
            op_views(diff@) =~= changes(ov, nv.subrange(0, i as int)),
        decreases new@.len() - i,
    {
        let ghost before = op_views(diff@);
        assert(nv.subrange(0, i + 1).drop_last() =~= nv.subrange(0, i as int));
        assert(nv.subrange(0, i + 1).last() == new@[i as int]@);
        match &new[i].name {
            Some(n) => match index_of(old, n) {
                Some(j) => {
                    proof {
                        lemma_last_index_bounds(ov, n@);
                    }
                    if !new[i].line.eq(&old[j].line) {
                        diff.push(DiffOp::Update(new[i].duplicate()));
                        assert(op_views(diff@) =~= before.push(DiffOpView::Update(new@[i as int]@)));
                    }
                },
                None => {
                    diff.push(DiffOp::Add(new[i].duplicate()));
                    assert(op_views(diff@) =~= before.push(DiffOpView::Add(new@[i as int]@)));
                },
            },
            None => {},
        }
        i = i + 1;
    }
    assert(nv.subrange(0, new@.len() as int) =~= nv);
    let ghost front = changes(ov, nv);
    let mut k: usize = 0;
    assert(op_views(diff@) =~= front + removals(ov.subrange(0, 0), nv));
    while k < old.len()
        invariant
            k <= old@.len(),
            ov == views(old@),
            nv == views(new@),
            op_views(diff@) =~= front + removals(ov.subrange(0, k as int), nv),
        decreases old@.len() - k,
    {
        let ghost before = op_views(diff@);
        assert(ov.subrange(0, k + 1).drop_last() =~= ov.subrange(0, k as int));
        assert(ov.subrange(0, k + 1).last() == old@[k as int]@);
        match &old[k].name {
            Some(n) => match index_of(new, n) {
                Some(_) => {},
                None => {
                    diff.push(DiffOp::Remove(n.clone()));
                    assert(op_views(diff@) =~= before.push(DiffOpView::Remove(n@)));
                },
            },
            None => {},
        }
        k = k + 1;
    }
    assert(ov.subrange(0, old@.len() as int) =~= ov);
    diff
}

} // verus!
