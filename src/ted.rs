use itertools::Itertools;
use vstd::prelude::*;

verus! {

/// One operation of a raw alignment script over a sibling sequence.
#[derive(Debug, PartialEq, Eq)]
pub enum RawEdit {
    Insert,
    Remove,
    Replace(Vec<RawEdit>),
}

/// One normalized operation over a sibling sequence.
#[derive(Debug, PartialEq, Eq)]
pub enum TreeEdit {
    Same,
    InsertFirst(usize),
    Insert(usize),
    Remove,
    Replace(Vec<TreeEdit>),
    RemoveInsert,
}

/// Mathematical model of a normalized edit.
pub enum EditSpec {
    Same,
    InsertFirst(nat),
    Insert(nat),
    Remove,
    Replace(Seq<EditSpec>),
    RemoveInsert,
}

impl TreeEdit {
    pub open spec fn view(self) -> EditSpec
        decreases self, 1nat,
    {
        match self {
            TreeEdit::Same => EditSpec::Same,
            TreeEdit::InsertFirst(n) => EditSpec::InsertFirst(n as nat),
            TreeEdit::Insert(n) => EditSpec::Insert(n as nat),
            TreeEdit::Remove => EditSpec::Remove,
            TreeEdit::Replace(v) => EditSpec::Replace(views(v@)),
            TreeEdit::RemoveInsert => EditSpec::RemoveInsert,
        }
    }
}

/// The models of a sequence of edits, element by element.
pub open spec fn views(s: Seq<TreeEdit>) -> Seq<EditSpec>
    decreases s, 0nat,
{
    if s.len() == 0 {
        Seq::empty()
    } else {
        views(s.subrange(0, s.len() - 1)).push(s[s.len() - 1].view())
    }
}

/// The direct counterpart of one raw edit.
pub open spec fn map_one(r: RawEdit) -> EditSpec
    decreases r, 0nat,
{
    match r {
        RawEdit::Insert => EditSpec::Insert(1),
        RawEdit::Remove => EditSpec::Remove,
        RawEdit::Replace(v) => {
            let n = normalize(v@);
            if all_same(n) {
                EditSpec::Same
            } else {
                EditSpec::Replace(n)
            }
        },
    }
}

/// The direct counterparts of a raw script, element by element.
pub open spec fn map_all(rs: Seq<RawEdit>) -> Seq<EditSpec>
    decreases rs, 0nat,
{
    if rs.len() == 0 {
        Seq::empty()
    } else {
        map_all(rs.subrange(0, rs.len() - 1)).push(map_one(rs[rs.len() - 1]))
    }
}

/// Every entry is `Same` (true of the empty sequence).
pub open spec fn all_same(s: Seq<EditSpec>) -> bool {
    forall|i: int| 0 <= i < s.len() ==> s[i] is Same
}

/// A `Remove` next to an `Insert`, in either order.
pub open spec fn fusable(a: EditSpec, b: EditSpec) -> bool {
    (a is Remove && b is Insert) || (a is Insert && b is Remove)
}

/// Left-to-right pairwise fusion of a `Remove` and an adjacent `Insert` into `RemoveInsert`.
pub open spec fn fuse(s: Seq<EditSpec>) -> Seq<EditSpec>
    decreases s.len(),
{
    if s.len() == 0 {
        s
    } else {
        let r = fuse(s.drop_last());
        if r.len() > 0 && fusable(r.last(), s.last()) {
            r.drop_last().push(EditSpec::RemoveInsert)
        } else {
            r.push(s.last())
        }
    }
}

/// Each maximal run of consecutive inserts becomes one insert of the run's length.
pub open spec fn group(s: Seq<EditSpec>) -> Seq<EditSpec>
    decreases s.len(),
{
    if s.len() == 0 {
        s
    } else {
        let r = group(s.drop_last());
        if s.last() is Insert {
            if r.len() > 0 && r.last() is Insert {
                r.drop_last().push(EditSpec::Insert(r.last()->Insert_0 + 1))
            } else {
                r.push(EditSpec::Insert(1))
            }
        } else {
            r.push(s.last())
        }
    }
}

/// A leading insert is anchored at the parent.
pub open spec fn first_insert(s: Seq<EditSpec>) -> Seq<EditSpec> {
    if s.len() > 0 && s[0] is Insert {
        s.update(0, EditSpec::InsertFirst(s[0]->Insert_0))
    } else {
        s
    }
}

/// The normalized form of a raw script.
pub open spec fn normalize(rs: Seq<RawEdit>) -> Seq<EditSpec>
    decreases rs, 1nat,
{
    first_insert(group(fuse(map_all(rs))))
}


/// An alignment that pairs every element, at every level: no insert and no remove.
pub open spec fn unchanged(rs: Seq<RawEdit>) -> bool
    decreases rs,
{
    forall|i: int| 0 <= i < rs.len() ==> match #[trigger] rs[i] {
        RawEdit::Replace(v) => unchanged(v@),
        _ => false,
    }
}

/// An insert of either kind.
pub open spec fn is_insert(e: EditSpec) -> bool {
    e is Insert || e is InsertFirst
}

/// No two neighbouring entries are both inserts.
pub open spec fn inserts_batched(s: Seq<EditSpec>) -> bool {
    forall|i: int| 0 <= i < s.len() - 1 ==> !(is_insert(#[trigger] s[i]) && is_insert(s[i + 1]))
}

/// No `Remove` stands next to an insert.
pub open spec fn removes_fused(s: Seq<EditSpec>) -> bool {
    forall|i: int|
        0 <= i < s.len() - 1 ==> !((#[trigger] s[i] is Remove && is_insert(s[i + 1])) || (is_insert(s[i])
            && s[i + 1] is Remove))
}

proof fn lemma_map_all_len(rs: Seq<RawEdit>)
    ensures
        map_all(rs).len() == rs.len(),
        forall|i: int| 0 <= i < rs.len() ==> #[trigger] map_all(rs)[i] == map_one(rs[i]),
    decreases rs.len(),
{
    if rs.len() > 0 {
        lemma_map_all_len(rs.subrange(0, rs.len() - 1));
    }
}

pub(crate) proof fn lemma_unchanged_all_same(rs: Seq<RawEdit>)
    requires
        unchanged(rs),
    ensures
        normalize(rs).len() == rs.len(),
        all_same(normalize(rs)),
    decreases rs,
{
    lemma_map_all_len(rs);
    assert forall|i: int| 0 <= i < rs.len() implies #[trigger] map_all(rs)[i] is Same by {
        match rs[i] {
            RawEdit::Replace(v) => {
                assert(decreases_to!(rs => v@)) by {
                    assert(decreases_to!(rs => rs[i]));
                };
                lemma_unchanged_all_same(v@);
            },
            _ => {},
        }
    };
    lemma_fuse_same(map_all(rs));
    lemma_group_same(map_all(rs));
}

proof fn lemma_fuse_same(s: Seq<EditSpec>)
    requires
        all_same(s),
    ensures
        fuse(s) == s,
    decreases s.len(),
{
    if s.len() > 0 {
        lemma_fuse_same(s.drop_last());
        assert(s.drop_last().push(s.last()) =~= s);
    }
}

proof fn lemma_group_same(s: Seq<EditSpec>)
    requires
        all_same(s),
    ensures
        group(s) == s,
    decreases s.len(),
{
    if s.len() > 0 {
        lemma_group_same(s.drop_last());
        assert(s.drop_last().push(s.last()) =~= s);
    }
}

/// The entries of a fused sequence: no adjacent pair of a `Remove` and an `Insert`.
proof fn lemma_fuse_fused(s: Seq<EditSpec>)
    ensures
        forall|i: int| 0 <= i < fuse(s).len() - 1 ==> !fusable(#[trigger] fuse(s)[i], fuse(s)[i + 1]),
    decreases s.len(),
{
    if s.len() > 0 {
        lemma_fuse_fused(s.drop_last());
        let r = fuse(s.drop_last());
        if r.len() > 0 && fusable(r.last(), s.last()) {
            let t = r.drop_last().push(EditSpec::RemoveInsert);
            assert forall|i: int| 0 <= i < t.len() - 1 implies !fusable(#[trigger] t[i], t[i + 1]) by {
                if i < t.len() - 2 {
                    assert(t[i] == r[i] && t[i + 1] == r[i + 1]);
                }
            };
        } else {
            let t = r.push(s.last());
            assert forall|i: int| 0 <= i < t.len() - 1 implies !fusable(#[trigger] t[i], t[i + 1]) by {
                if i < t.len() - 2 {
                    assert(t[i] == r[i] && t[i + 1] == r[i + 1]);
                }
            };
        }
    }
}

proof fn lemma_group_shape(s: Seq<EditSpec>)
    requires
        forall|i: int| 0 <= i < s.len() - 1 ==> !fusable(#[trigger] s[i], s[i + 1]),
        forall|i: int| 0 <= i < s.len() ==> !(#[trigger] s[i] is InsertFirst),
    ensures
        group(s).len() > 0 <==> s.len() > 0,
        s.len() > 0 ==> (group(s).last() is Insert <==> s.last() is Insert),
        s.len() > 0 && !(s.last() is Insert) ==> group(s).last() == s.last(),
        forall|i: int| 0 <= i < group(s).len() ==> !(#[trigger] group(s)[i] is InsertFirst),
        forall|i: int| 0 <= i < group(s).len() - 1 ==> !(#[trigger] group(s)[i] is Insert && group(s)[i + 1] is Insert),
        forall|i: int| 0 <= i < group(s).len() - 1 ==> !fusable(#[trigger] group(s)[i], group(s)[i + 1]),
    decreases s.len(),
{
    if s.len() > 0 {
        let t = s.drop_last();
        lemma_group_shape(t);
        let r = group(t);
        if t.len() > 0 {
            assert(s[s.len() - 2] == t.last());
            assert(!fusable(s[s.len() - 2], s[s.len() - 1]));
        }
    }
}

/// The normalized form of any raw script batches its inserts (no two neighbouring entries are
/// inserts, and only the first may be anchored at the parent) and fuses each remove with a
/// neighbouring insert into one replacement. A nested list of a `Replace` is itself the
/// normalized form of a raw script, so this holds at every level.
pub proof fn lemma_normalize_shape(rs: Seq<RawEdit>)
    ensures
        inserts_batched(normalize(rs)),
        removes_fused(normalize(rs)),
        forall|i: int| 0 < i < normalize(rs).len() ==> !(#[trigger] normalize(rs)[i] is InsertFirst),
{
    let m = map_all(rs);
    lemma_map_all_len(rs);
    lemma_fuse_fused(m);
    lemma_fuse_plain(m);
    lemma_group_shape(fuse(m));
}

proof fn lemma_fuse_plain(s: Seq<EditSpec>)
    requires
        forall|i: int| 0 <= i < s.len() ==> !(#[trigger] s[i] is InsertFirst),
    ensures
        forall|i: int| 0 <= i < fuse(s).len() ==> !(#[trigger] fuse(s)[i] is InsertFirst),
    decreases s.len(),
{
    if s.len() > 0 {
        lemma_fuse_plain(s.drop_last());
    }
}

pub(crate) proof fn lemma_views(s: Seq<TreeEdit>)
    ensures
        views(s).len() == s.len(),
        forall|i: int| 0 <= i < s.len() ==> #[trigger] views(s)[i] == s[i].view(),
    decreases s.len(),
{
    if s.len() > 0 {
        lemma_views(s.subrange(0, s.len() - 1));
    }
}

proof fn lemma_views_push(s: Seq<TreeEdit>, e: TreeEdit)
    ensures
        views(s.push(e)) == views(s).push(e.view()),
{
    assert(s.push(e).subrange(0, s.len() as int) =~= s);
}

proof fn lemma_map_all_push(rs: Seq<RawEdit>, i: int)
    requires
        0 <= i < rs.len(),
    ensures
        map_all(rs.subrange(0, i + 1)) == map_all(rs.subrange(0, i)).push(map_one(rs[i])),
{
    assert(rs.subrange(0, i + 1).subrange(0, i) =~= rs.subrange(0, i));
}

fn is_all_same(n: &Vec<TreeEdit>) -> (r: bool)
    ensures
        r == all_same(views(n@)),
{
    proof {
        lemma_views(n@);
    }
    let mut j: usize = 0;
    while j < n.len()
        invariant
            0 <= j <= n.len(),
            views(n@).len() == n@.len(),
            forall|k: int| 0 <= k < n@.len() ==> #[trigger] views(n@)[k] == n@[k].view(),
            forall|k: int| 0 <= k < j ==> (#[trigger] views(n@)[k]) is Same,
        decreases n.len() - j,
    {
        match &n[j] {
            TreeEdit::Same => {},
            _ => {
                assert(!(views(n@)[j as int] is Same));
                return false;
            },
        }
        j = j + 1;
    }
    true
}

/// `RemoveInsert` for a remove next to an insert, in either order; otherwise both edits back.
fn fuse_pair(a: TreeEdit, b: TreeEdit) -> (r: Result<TreeEdit, (TreeEdit, TreeEdit)>)
    ensures
        fusable(a.view(), b.view()) ==> r == Ok::<TreeEdit, (TreeEdit, TreeEdit)>(TreeEdit::RemoveInsert),
        !fusable(a.view(), b.view()) ==> r == Err::<TreeEdit, (TreeEdit, TreeEdit)>((a, b)),
{
    match (&a, &b) {
        (TreeEdit::Remove, TreeEdit::Insert(_)) => Ok(TreeEdit::RemoveInsert),
        (TreeEdit::Insert(_), TreeEdit::Remove) => Ok(TreeEdit::RemoveInsert),
        _ => Err((a, b)),
    }
}

/// Relies on itertools' `Itertools::coalesce`: from the left, each pair of the value kept so
/// far and the next edit goes to `fuse_pair`; a merged value is kept for the next pair, and
/// otherwise the kept value is emitted and the next edit kept; the last kept value is emitted.
#[verifier::external_body]
fn coalesce_fused(v: Vec<TreeEdit>) -> (r: Vec<TreeEdit>)
    ensures
        views(r@) == fuse(views(v@)),
{
    v.into_iter().coalesce(|a, b| fuse_pair(a, b)).collect()
}

/// Whether an edit is a plain (not leading) insert.
fn is_plain_insert(e: &TreeEdit) -> (r: bool)
    ensures
        r == (e.view() is Insert),
{
    matches!(e, TreeEdit::Insert(_))
}

/// The edits of a sequence of chunks, chunk after chunk.
pub open spec fn flatten(c: Seq<(bool, Vec<TreeEdit>)>) -> Seq<TreeEdit>
    decreases c.len(),
{
    if c.len() == 0 {
        Seq::empty()
    } else {
        flatten(c.drop_last()) + c.last().1@
    }
}

/// Relies on itertools' `Itertools::chunk_by`: the edits, in order, cut into maximal
/// non-empty runs on which `is_plain_insert` agrees, each run with that value.
#[verifier::external_body]
fn chunk_inserts(v: Vec<TreeEdit>) -> (r: Vec<(bool, Vec<TreeEdit>)>)
    ensures
        flatten(r@) == v@,
        forall|i: int| 0 <= i < r@.len() ==> (#[trigger] r@[i]).1@.len() > 0,
        forall|i: int, j: int|
            0 <= i < r@.len() && 0 <= j < r@[i].1@.len() ==> (#[trigger] r@[i].1@[j]).view() is Insert
                == r@[i].0,
        forall|i: int| 0 <= i < r@.len() - 1 ==> (#[trigger] r@[i]).0 != r@[i + 1].0,
{
    let chunks = v.into_iter().chunk_by(|e| is_plain_insert(e));
    let r = chunks.into_iter().map(|(key, run)| (key, run.collect())).collect();
    r
}

proof fn lemma_flatten_step(c: Seq<(bool, Vec<TreeEdit>)>, k: int)
    requires
        0 <= k < c.len(),
    ensures
        flatten(c.subrange(0, k + 1)) == flatten(c.subrange(0, k)) + c[k].1@,
{
    assert(c.subrange(0, k + 1).drop_last() =~= c.subrange(0, k));
}

proof fn lemma_flatten_last(c: Seq<(bool, Vec<TreeEdit>)>, k: int)
    requires
        0 < k <= c.len(),
        c[k - 1].1@.len() > 0,
    ensures
        flatten(c.subrange(0, k)).len() > 0,
        flatten(c.subrange(0, k)).last() == c[k - 1].1@.last(),
{
    lemma_flatten_step(c, k - 1);
}

proof fn lemma_views_append(a: Seq<TreeEdit>, b: Seq<TreeEdit>)
    ensures
        views(a + b) == views(a) + views(b),
{
    lemma_views(a);
    lemma_views(b);
    lemma_views(a + b);
    assert(views(a + b) =~= views(a) + views(b));
}

proof fn lemma_group_last(s: Seq<EditSpec>)
    requires
        s.len() > 0,
    ensures
        group(s).len() > 0,
        group(s).last() is Insert <==> s.last() is Insert,
    decreases s.len(),
{
    if s.len() > 1 {
        lemma_group_last(s.drop_last());
    }
}

/// A run without inserts passes through grouping unchanged.
proof fn lemma_group_plain_run(p: Seq<EditSpec>, t: Seq<EditSpec>)
    requires
        forall|j: int| 0 <= j < t.len() ==> !(#[trigger] t[j] is Insert),
    ensures
        group(p + t) == group(p) + t,
    decreases t.len(),
{
    if t.len() == 0 {
        assert(p + t =~= p);
        assert(group(p) + t =~= group(p));
    } else {
        let u = t.drop_last();
        lemma_group_plain_run(p, u);
        assert((p + t).drop_last() =~= p + u);
        assert(group(p) + t =~= (group(p) + u).push(t.last()));
    }
}

/// A non-empty run of inserts after a non-insert becomes one insert of the run's length.
proof fn lemma_group_insert_run(p: Seq<EditSpec>, t: Seq<EditSpec>)
    requires
        t.len() > 0,
        forall|j: int| 0 <= j < t.len() ==> #[trigger] t[j] is Insert,
        p.len() > 0 ==> !(p.last() is Insert),
    ensures
        group(p + t) == group(p).push(EditSpec::Insert(t.len())),
    decreases t.len(),
{
    let u = t.drop_last();
    assert((p + t).drop_last() =~= p + u);
    if u.len() == 0 {
        assert(p + u =~= p);
        if p.len() > 0 {
            lemma_group_last(p);
        }
    } else {
        lemma_group_insert_run(p, u);
        assert(group(p).push(EditSpec::Insert(u.len())).drop_last() =~= group(p));
    }
}

/// Normalizes a raw alignment script: identical pairs collapse to `Same`, an adjacent
/// remove and insert fuse into `RemoveInsert`, runs of inserts become one batch, and a
/// leading batch is anchored at the parent.
pub fn generate_edit(edits: &[RawEdit]) -> (r: Vec<TreeEdit>)
    ensures
        views(r@) == normalize(edits@),
    decreases edits@,
{
    // the direct counterparts
    let mut mapped: Vec<TreeEdit> = Vec::new();
    let mut i: usize = 0;
    while i < edits.len()
        invariant
            0 <= i <= edits.len(),
            views(mapped@) == map_all(edits@.subrange(0, i as int)),
        decreases edits.len() - i,
    {
        let e = match &edits[i] {
            RawEdit::Insert => TreeEdit::Insert(1),
            RawEdit::Remove => TreeEdit::Remove,
            RawEdit::Replace(v) => {
                assert(decreases_to!(edits@ => v@)) by {
                    assert(decreases_to!(edits@ => edits@[i as int]));
                };
                let n = generate_edit(v.as_slice());
                if is_all_same(&n) {
                    TreeEdit::Same
                } else {
                    TreeEdit::Replace(n)
                }
            },
        };
        proof {
            lemma_map_all_push(edits@, i as int);
            lemma_views_push(mapped@, e);
        }
        mapped.push(e);
        i = i + 1;
    }
    assert(edits@.subrange(0, edits.len() as int) =~= edits@);
    // a remove and an adjacent insert fused, pairwise from the left
    let fused = coalesce_fused(mapped);
    // runs of inserts grouped into batches
    let ghost f = fused@;
    let mut chunks = chunk_inserts(fused);
    let ghost cs = chunks@;
    assert(cs.len() == chunks.len());
    let mut out: Vec<TreeEdit> = Vec::new();
    let mut k: usize = 0;
    proof {
        assert(cs.subrange(0, 0) =~= Seq::<(bool, Vec<TreeEdit>)>::empty());
        assert(views(Seq::<TreeEdit>::empty()) =~= Seq::<EditSpec>::empty());
    }
    while chunks.len() > 0
        invariant
            k + chunks@.len() == cs.len(),
            cs.len() <= usize::MAX,
            chunks@ == cs.subrange(k as int, cs.len() as int),
            flatten(cs) == f,
            forall|i: int| 0 <= i < cs.len() ==> (#[trigger] cs[i]).1@.len() > 0,
            forall|i: int, j: int|
                0 <= i < cs.len() && 0 <= j < cs[i].1@.len() ==> (#[trigger] cs[i].1@[j]).view() is Insert
                    == cs[i].0,
            forall|i: int| 0 <= i < cs.len() - 1 ==> (#[trigger] cs[i]).0 != cs[i + 1].0,
            views(out@) == group(views(flatten(cs.subrange(0, k as int)))),
        decreases chunks@.len(),
    {
        let (is_insert, mut run) = chunks.remove(0);
        let ghost p = views(flatten(cs.subrange(0, k as int)));
        let ghost t = views(run@);
        proof {
            assert(cs[k as int] == (is_insert, run));
            lemma_flatten_step(cs, k as int);
            lemma_views_append(flatten(cs.subrange(0, k as int)), run@);
            lemma_views(run@);
            if k > 0 {
                lemma_flatten_last(cs, k as int);
                lemma_views(flatten(cs.subrange(0, k as int)));
                let prev = cs[k - 1].1@;
                assert(prev[prev.len() - 1].view() is Insert == cs[k - 1].0);
            }
        }
        if is_insert {
            proof {
                lemma_group_insert_run(p, t);
                lemma_views_push(out@, TreeEdit::Insert(run.len()));
            }
            out.push(TreeEdit::Insert(run.len()));
        } else {
            proof {
                lemma_group_plain_run(p, t);
                lemma_views_append(out@, run@);
            }
            out.append(&mut run);
        }
        k = k + 1;
        assert(chunks@ =~= cs.subrange(k as int, cs.len() as int));
    }
    assert(cs.subrange(0, k as int) =~= cs);
    // a leading batch is anchored at the parent
    if out.len() > 0 {
        let first = match &out[0] {
            TreeEdit::Insert(c) => Some(*c),
            _ => None,
        };
        match first {
            Some(c) => {
                proof {
                    lemma_views(out@);
                }
                out.set(0, TreeEdit::InsertFirst(c));
                proof {
                    lemma_views(out@);
                    assert(views(out@) =~= first_insert(group(fuse(map_all(edits@)))));
                }
            },
            None => {
                proof {
                    lemma_views(out@);
                }
            },
        }
    }
    out
}

} // verus!
