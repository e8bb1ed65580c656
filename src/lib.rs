use vstd::prelude::*;

pub mod ted;

pub use crate::ted::{RawEdit, TreeEdit};

use crate::ted::{generate_edit, lemma_unchanged_all_same, lemma_views, normalize, unchanged, views, EditSpec};

verus! {

/// One element of a syntax tree: a node with children, or a token with text and no children.
#[derive(Debug, PartialEq, Eq)]
pub struct TreeElement {
    pub kind: u16,
    pub text: String,
    pub children: Vec<usize>,
}

/// An immutable syntax tree held as an arena: an element is identified by its index, and
/// element 0 is the root.
#[derive(Debug, PartialEq, Eq)]
pub struct SyntaxTree {
    pub elements: Vec<TreeElement>,
}

impl SyntaxTree {
    /// There is a root, and every child refers to an element of the tree.
    pub open spec fn wf(&self) -> bool {
        &&& self.elements@.len() > 0
        &&& forall|i: int, j: int|
            0 <= i < self.elements@.len() && 0 <= j < self.elements@[i].children@.len()
                ==> #[trigger] self.elements@[i].children@[j] < self.elements@.len()
    }

    /// Whether the tree has a root and every child refers to an element of the tree.
    pub fn is_well_formed(&self) -> (r: bool)
        ensures
            r == self.wf(),
    {
        let n = self.elements.len();
        if n == 0 {
            return false;
        }
        let mut i: usize = 0;
        while i < n
            invariant
                n == self.elements@.len(),
                i <= n,
                forall|a: int, b: int|
                    0 <= a < i && 0 <= b < self.elements@[a].children@.len()
                        ==> #[trigger] self.elements@[a].children@[b] < n,
            decreases n - i,
        {
            let cs = &self.elements[i].children;
            let mut j: usize = 0;
            while j < cs.len()
                invariant
                    n == self.elements@.len(),
                    i < n,
                    j <= cs@.len(),
                    cs == self.elements@[i as int].children,
                    forall|a: int, b: int|
                        0 <= a < i && 0 <= b < self.elements@[a].children@.len()
                            ==> #[trigger] self.elements@[a].children@[b] < n,
                    forall|b: int| 0 <= b < j ==> #[trigger] cs@[b] < n,
                decreases cs@.len() - j,
            {
                if cs[j] >= n {
                    return false;
                }
                j = j + 1;
            }
            i = i + 1;
        }
        true
    }

    pub open spec fn children_of(&self, id: usize) -> Seq<usize> {
        self.elements@[id as int].children@
    }
}

/// Where a batch of new elements goes, always named by an element of the original tree.
#[derive(Clone, Copy, Debug, PartialEq, Eq, Structural)]
pub enum TreeDiffInsertPos {
    After(usize),
    AsFirstChild(usize),
}

/// Replacements (original element, new element), deletions of original elements in document
/// order, and batches of new elements with their anchors, in order.
#[derive(Debug, PartialEq, Eq)]
pub struct TreeDiff {
    pub replacements: Vec<(usize, usize)>,
    pub deletions: Vec<usize>,
    pub insertions: Vec<(TreeDiffInsertPos, Vec<usize>)>,
}

pub struct DiffModel {
    pub replacements: Seq<(usize, usize)>,
    pub deletions: Seq<usize>,
    pub insertions: Seq<(TreeDiffInsertPos, Seq<usize>)>,
}

impl TreeDiff {
    pub open spec fn view(&self) -> DiffModel {
        DiffModel {
            replacements: self.replacements@,
            deletions: self.deletions@,
            insertions: self.insertions@.map_values(|p: (TreeDiffInsertPos, Vec<usize>)| (p.0, p.1@)),
        }
    }
}

pub open spec fn empty_diff() -> DiffModel {
    DiffModel { replacements: Seq::empty(), deletions: Seq::empty(), insertions: Seq::empty() }
}

/// The state of one level of the walk: the diff so far, how many left and right siblings
/// were consumed, and the left sibling consumed last.
pub struct Cursor {
    pub diff: DiffModel,
    pub left: nat,
    pub right: nat,
    pub current: Option<usize>,
}

/// The cursor after the first `k` edits of `es` over the siblings `ls` (of `from`) and `rs`
/// (of `to`) under the original element `parent`; `None` where the edits ask for an element
/// that is not there.
pub open spec fn run(
    es: Seq<EditSpec>,
    k: nat,
    parent: Option<usize>,
    from: SyntaxTree,
    ls: Seq<usize>,
    to: SyntaxTree,
    rs: Seq<usize>,
    d: DiffModel,
) -> Option<Cursor>
    decreases es, k as int + 1,
{
    if k == 0 {
        Some(Cursor { diff: d, left: 0, right: 0, current: None })
    } else if k > es.len() {
        None
    } else {
        match run(es, (k - 1) as nat, parent, from, ls, to, rs, d) {
            None => None,
            Some(c) => step(es[k - 1], c, parent, from, ls, to, rs),
        }
    }
}

/// The cursor after the edit `e` from cursor `c`; `None` where `e` asks for an element that
/// is not there.
pub open spec fn step(
    e: EditSpec,
    c: Cursor,
    parent: Option<usize>,
    from: SyntaxTree,
    ls: Seq<usize>,
    to: SyntaxTree,
    rs: Seq<usize>,
) -> Option<Cursor>
    decreases e, 0nat,
{
    let li = c.left;
    let ri = c.right;
    match e {
        EditSpec::Same => if li < ls.len() && ri < rs.len() {
            Some(Cursor { left: li + 1, right: ri + 1, current: Some(ls[li as int]), ..c })
        } else {
            None
        },
        EditSpec::RemoveInsert => if li < ls.len() && ri < rs.len() {
            Some(Cursor {
                diff: DiffModel {
                    replacements: c.diff.replacements.push((ls[li as int], rs[ri as int])),
                    ..c.diff
                },
                left: li + 1,
                right: ri + 1,
                current: Some(ls[li as int]),
            })
        } else {
            None
        },
        EditSpec::Remove => if li < ls.len() {
            Some(Cursor {
                diff: DiffModel { deletions: c.diff.deletions.push(ls[li as int]), ..c.diff },
                left: li + 1,
                current: Some(ls[li as int]),
                ..c
            })
        } else {
            None
        },
        EditSpec::Insert(n) => match c.current {
            Some(x) => insert_batch(c, TreeDiffInsertPos::After(x), n, rs),
            None => None,
        },
        EditSpec::InsertFirst(n) => match parent {
            Some(p) => insert_batch(c, TreeDiffInsertPos::AsFirstChild(p), n, rs),
            None => None,
        },
        EditSpec::Replace(nested) => if li < ls.len() && ri < rs.len() {
            let l = ls[li as int];
            let r = rs[ri as int];
            match run(nested, nested.len(), Some(l), from, from.children_of(l), to, to.children_of(r), c.diff) {
                Some(c2) => Some(Cursor { diff: c2.diff, left: li + 1, right: ri + 1, current: Some(l) }),
                None => None,
            }
        } else {
            None
        },
    }
}

/// Up to `n` of the next right siblings, as many as remain, inserted at `pos`.
pub open spec fn insert_batch(c: Cursor, pos: TreeDiffInsertPos, n: nat, rs: Seq<usize>) -> Option<Cursor> {
    let end = if c.right + n <= rs.len() { c.right + n } else if c.right <= rs.len() { rs.len() as nat } else { c.right };
    Some(Cursor {
        diff: DiffModel { insertions: c.diff.insertions.push((pos, rs.subrange(c.right as int, end as int))), ..c.diff },
        right: end,
        ..c
    })
}


proof fn lemma_run_stays_none(
    es: Seq<EditSpec>,
    k: nat,
    k2: nat,
    parent: Option<usize>,
    from: SyntaxTree,
    ls: Seq<usize>,
    to: SyntaxTree,
    rs: Seq<usize>,
    d: DiffModel,
)
    requires
        k <= k2,
        run(es, k, parent, from, ls, to, rs, d) is None,
    ensures
        run(es, k2, parent, from, ls, to, rs, d) is None,
    decreases k2,
{
    if k < k2 {
        lemma_run_stays_none(es, k, (k2 - 1) as nat, parent, from, ls, to, rs, d);
    }
}

/// Up to `n` right siblings from `ri` on, as many as remain, and the position after them.
fn take_batch(rs: &Vec<usize>, ri: usize, n: usize) -> (r: (Vec<usize>, usize))
    requires
        ri <= rs@.len(),
    ensures
        r.1 == (if ri + n <= rs@.len() { ri + n } else { rs@.len() as int }),
        r.0@ == rs@.subrange(ri as int, r.1 as int),
{
    let end: usize = if n <= rs.len() - ri {
        ri + n
    } else {
        rs.len()
    };
    let mut batch: Vec<usize> = Vec::new();
    let mut j: usize = ri;
    while j < end
        invariant
            ri <= j <= end <= rs@.len(),
            batch@ == rs@.subrange(ri as int, j as int),
        decreases end - j,
    {
        batch.push(rs[j]);
        j = j + 1;
        assert(batch@ =~= rs@.subrange(ri as int, j as int));
    }
    (batch, end)
}

/// Applies one normalized edit at the cursor (`li` left and `ri` right siblings consumed,
/// `current` consumed last), records it in `diff`, and returns the next cursor; `None` where
/// the edit asks for an element that is not there.
fn generate_step(
    diff: &mut TreeDiff,
    edit: &TreeEdit,
    left_parent: Option<usize>,
    from: &SyntaxTree,
    left_childs: &Vec<usize>,
    to: &SyntaxTree,
    right_childs: &Vec<usize>,
    li: usize,
    ri: usize,
    current: Option<usize>,
) -> (r: Option<(usize, usize, Option<usize>)>)
    requires
        from.wf(),
        to.wf(),
        forall|j: int| 0 <= j < left_childs@.len() ==> #[trigger] left_childs@[j] < from.elements@.len(),
        forall|j: int| 0 <= j < right_childs@.len() ==> #[trigger] right_childs@[j] < to.elements@.len(),
        li <= left_childs@.len(),
        ri <= right_childs@.len(),
    ensures
        r is Some <==> step(edit.view(), Cursor { diff: old(diff)@, left: li as nat, right: ri as nat, current },
            left_parent, *from, left_childs@, *to, right_childs@) is Some,
        r is Some ==> {
            &&& r->Some_0.0 <= left_childs@.len()
            &&& r->Some_0.1 <= right_childs@.len()
            &&& step(edit.view(), Cursor { diff: old(diff)@, left: li as nat, right: ri as nat, current },
                left_parent, *from, left_childs@, *to, right_childs@) == Some(Cursor {
                diff: final(diff)@,
                left: r->Some_0.0 as nat,
                right: r->Some_0.1 as nat,
                current: r->Some_0.2,
            })
        },
    decreases edit, 0nat,
{
    let ghost before = diff@;
    match edit {
        TreeEdit::Same => {
            if li >= left_childs.len() || ri >= right_childs.len() {
                return None;
            }
            Some((li + 1, ri + 1, Some(left_childs[li])))
        },
        TreeEdit::RemoveInsert => {
            if li >= left_childs.len() || ri >= right_childs.len() {
                return None;
            }
            diff.replacements.push((left_childs[li], right_childs[ri]));
            Some((li + 1, ri + 1, Some(left_childs[li])))
        },
        TreeEdit::Remove => {
            if li >= left_childs.len() {
                return None;
            }
            diff.deletions.push(left_childs[li]);
            Some((li + 1, ri, Some(left_childs[li])))
        },
        TreeEdit::Insert(n) => {
            match current {
                Some(x) => {
                    let (batch, end) = take_batch(right_childs, ri, *n);
                    diff.insertions.push((TreeDiffInsertPos::After(x), batch));
                    assert(diff@.insertions =~= before.insertions.push(
                        (TreeDiffInsertPos::After(x), right_childs@.subrange(ri as int, end as int)),
                    ));
                    Some((li, end, current))
                },
                None => None,
            }
        },
        TreeEdit::InsertFirst(n) => {
            match left_parent {
                Some(p) => {
                    let (batch, end) = take_batch(right_childs, ri, *n);
                    diff.insertions.push((TreeDiffInsertPos::AsFirstChild(p), batch));
                    assert(diff@.insertions =~= before.insertions.push(
                        (TreeDiffInsertPos::AsFirstChild(p), right_childs@.subrange(ri as int, end as int)),
                    ));
                    Some((li, end, current))
                },
                None => None,
            }
        },
        TreeEdit::Replace(nested) => {
            if li >= left_childs.len() || ri >= right_childs.len() {
                return None;
            }
            let l = left_childs[li];
            let r = right_childs[ri];
            proof {
                lemma_views(nested@);
            }
            let ok = generate_diff(
                diff,
                nested,
                Some(l),
                from,
                &from.elements[l].children,
                to,
                &to.elements[r].children,
            );
            if ok {
                Some((li + 1, ri + 1, Some(l)))
            } else {
                None
            }
        },
    }
}

/// Walks one level of normalized edits over the left and right siblings, records what it
/// finds in `diff`, and descends into each replaced pair; false where the edits ask for an
/// element that is not there.
fn generate_diff(
    diff: &mut TreeDiff,
    edits: &Vec<TreeEdit>,
    left_parent: Option<usize>,
    from: &SyntaxTree,
    left_childs: &Vec<usize>,
    to: &SyntaxTree,
    right_childs: &Vec<usize>,
) -> (ok: bool)
    requires
        from.wf(),
        to.wf(),
        forall|j: int| 0 <= j < left_childs@.len() ==> #[trigger] left_childs@[j] < from.elements@.len(),
        forall|j: int| 0 <= j < right_childs@.len() ==> #[trigger] right_childs@[j] < to.elements@.len(),
    ensures
        ok == run(views(edits@), edits@.len(), left_parent, *from, left_childs@, *to, right_childs@, old(diff)@) is Some,
        ok ==> final(diff)@ == run(views(edits@), edits@.len(), left_parent, *from, left_childs@, *to, right_childs@, old(diff)@)->Some_0.diff,
    decreases edits, 1nat,
{
    let ghost es = views(edits@);
    let ghost d0 = diff@;
    proof {
        lemma_views(edits@);
    }
    let mut current: Option<usize> = None;
    let mut li: usize = 0;
    let mut ri: usize = 0;
    let mut i: usize = 0;
    while i < edits.len()
        invariant
            i <= edits@.len(),
            es == views(edits@),
            es.len() == edits@.len(),
            d0 == old(diff)@,
            forall|k: int| 0 <= k < edits@.len() ==> #[trigger] es[k] == edits@[k].view(),
            from.wf(),
            to.wf(),
            forall|j: int| 0 <= j < left_childs@.len() ==> #[trigger] left_childs@[j] < from.elements@.len(),
            forall|j: int| 0 <= j < right_childs@.len() ==> #[trigger] right_childs@[j] < to.elements@.len(),
            li <= left_childs@.len(),
            ri <= right_childs@.len(),
            run(es, i as nat, left_parent, *from, left_childs@, *to, right_childs@, d0) == Some(
                Cursor { diff: diff@, left: li as nat, right: ri as nat, current },
            ),
        decreases edits@.len() - i,
    {
        assert(decreases_to!(edits => edits@[i as int])) by {
            assert(decreases_to!(edits => edits@));
            assert(decreases_to!(edits@ => edits@[i as int]));
        };
        assert(run(es, (i + 1) as nat, left_parent, *from, left_childs@, *to, right_childs@, d0) == step(
            es[i as int], Cursor { diff: diff@, left: li as nat, right: ri as nat, current },
            left_parent, *from, left_childs@, *to, right_childs@));
        let ghost c0 = Cursor { diff: diff@, left: li as nat, right: ri as nat, current };
        assert(es[i as int] == edits@[i as int].view());
        match generate_step(diff, &edits[i], left_parent, from, left_childs, to, right_childs, li, ri, current) {
            Some((l2, r2, c2)) => {
                li = l2;
                ri = r2;
                current = c2;
            },
            None => {
                proof {
                    assert(step(es[i as int], c0, left_parent, *from, left_childs@, *to, right_childs@) is None);
                    assert(run(es, (i + 1) as nat, left_parent, *from, left_childs@, *to, right_childs@, d0) is None);
                    lemma_run_stays_none(es, (i + 1) as nat, es.len(), left_parent, *from, left_childs@, *to, right_childs@, d0);
                }
                return false;
            },
        }
        i = i + 1;
    }
    true
}

/// The normalized script of the alignment `script` of `from`'s root with `to`'s root, walked
/// from the two roots.
pub open spec fn diff_spec(from: SyntaxTree, to: SyntaxTree, script: Seq<RawEdit>) -> Option<Cursor> {
    let es = normalize(script);
    run(es, es.len(), None, from, seq![0usize], to, seq![0usize], empty_diff())
}

/// The structural diff of `from` and `to` under the alignment `script` of the root of `from`
/// with the root of `to`: the script is normalized, then walked over both trees. `None` where
/// the script asks for an element that is not there.
pub fn diff(from: &SyntaxTree, to: &SyntaxTree, script: &[RawEdit]) -> (r: Option<TreeDiff>)
    requires
        from.wf(),
        to.wf(),
    ensures
        r is Some <==> diff_spec(*from, *to, script@) is Some,
        r is Some ==> r->Some_0@ == diff_spec(*from, *to, script@)->Some_0.diff,
{
    let mut d = TreeDiff { replacements: Vec::new(), deletions: Vec::new(), insertions: Vec::new() };
    assert(d@.insertions =~= Seq::empty());
    assert(d@.replacements =~= Seq::empty());
    assert(d@.deletions =~= Seq::empty());
    let edits = generate_edit(script);
    proof {
        lemma_views(edits@);
    }
    let left_root: Vec<usize> = vec![0];
    let right_root: Vec<usize> = vec![0];
    assert(left_root@ =~= seq![0usize]);
    assert(right_root@ =~= seq![0usize]);
    if generate_diff(&mut d, &edits, None, from, &left_root, to, &right_root) {
        Some(d)
    } else {
        None
    }
}

/// An alignment that pairs the root of `from` with the root of `to` and every element below
/// with one on the other side, as the alignment of a tree with itself does, gives a diff with
/// no replacement, no deletion and no insertion.
pub proof fn lemma_identity_diff_empty(from: SyntaxTree, to: SyntaxTree, script: Seq<RawEdit>)
    requires
        unchanged(script),
        script.len() <= 1,
    ensures
        diff_spec(from, to, script) is Some,
        diff_spec(from, to, script)->Some_0.diff == empty_diff(),
{
    lemma_unchanged_all_same(script);
    let es = normalize(script);
    assert(run(es, 0, None, from, seq![0usize], to, seq![0usize], empty_diff()) is Some);
    if es.len() == 1 {
        assert(es[0] is Same);
        let c0 = Cursor { diff: empty_diff(), left: 0, right: 0, current: None };
        let ls = seq![0usize];
        assert(ls.len() == 1);
        assert(step(es[0], c0, None, from, ls, to, ls) == Some(
            Cursor { left: 1, right: 1, current: Some(ls[0]), ..c0 },
        ));
        assert(run(es, 1, None, from, ls, to, ls, empty_diff()) == step(es[0], c0, None, from, ls, to, ls));
    }
}

/// The element that an insertion position names.
pub open spec fn anchor(p: TreeDiffInsertPos) -> usize {
    match p {
        TreeDiffInsertPos::After(x) => x,
        TreeDiffInsertPos::AsFirstChild(x) => x,
    }
}

/// Every insertion is anchored at an element of `from`.
pub open spec fn anchors_in(d: DiffModel, from: SyntaxTree) -> bool {
    forall|i: int| 0 <= i < d.insertions.len() ==> anchor(#[trigger] d.insertions[i].0) < from.elements@.len()
}

proof fn lemma_run_anchors(
    es: Seq<EditSpec>,
    k: nat,
    parent: Option<usize>,
    from: SyntaxTree,
    ls: Seq<usize>,
    to: SyntaxTree,
    rs: Seq<usize>,
    d: DiffModel,
)
    requires
        from.wf(),
        anchors_in(d, from),
        parent is Some ==> parent->Some_0 < from.elements@.len(),
        forall|j: int| 0 <= j < ls.len() ==> #[trigger] ls[j] < from.elements@.len(),
        run(es, k, parent, from, ls, to, rs, d) is Some,
    ensures
        anchors_in(run(es, k, parent, from, ls, to, rs, d)->Some_0.diff, from),
        run(es, k, parent, from, ls, to, rs, d)->Some_0.current is Some ==> run(
            es,
            k,
            parent,
            from,
            ls,
            to,
            rs,
            d,
        )->Some_0.current->Some_0 < from.elements@.len(),
    decreases es, k as int + 1,
{
    if k > 0 {
        lemma_run_anchors(es, (k - 1) as nat, parent, from, ls, to, rs, d);
        let c = run(es, (k - 1) as nat, parent, from, ls, to, rs, d)->Some_0;
        lemma_step_anchors(es[k - 1], c, parent, from, ls, to, rs);
    }
}

proof fn lemma_step_anchors(
    e: EditSpec,
    c: Cursor,
    parent: Option<usize>,
    from: SyntaxTree,
    ls: Seq<usize>,
    to: SyntaxTree,
    rs: Seq<usize>,
)
    requires
        from.wf(),
        anchors_in(c.diff, from),
        c.current is Some ==> c.current->Some_0 < from.elements@.len(),
        parent is Some ==> parent->Some_0 < from.elements@.len(),
        forall|j: int| 0 <= j < ls.len() ==> #[trigger] ls[j] < from.elements@.len(),
        step(e, c, parent, from, ls, to, rs) is Some,
    ensures
        anchors_in(step(e, c, parent, from, ls, to, rs)->Some_0.diff, from),
        step(e, c, parent, from, ls, to, rs)->Some_0.current is Some ==> step(
            e,
            c,
            parent,
            from,
            ls,
            to,
            rs,
        )->Some_0.current->Some_0 < from.elements@.len(),
    decreases e, 0nat,
{
    let r = step(e, c, parent, from, ls, to, rs)->Some_0;
    match e {
        EditSpec::Replace(nested) => {
            let l = ls[c.left as int];
            let rr = rs[c.right as int];
            assert forall|j: int| 0 <= j < from.children_of(l).len() implies #[trigger] from.children_of(l)[j]
                < from.elements@.len() by {
                assert(from.elements@[l as int].children@[j] < from.elements@.len());
            };
            lemma_run_anchors(nested, nested.len(), Some(l), from, from.children_of(l), to, to.children_of(rr), c.diff);
        },
        EditSpec::Insert(n) => {
            assert forall|i: int| 0 <= i < r.diff.insertions.len() implies anchor(#[trigger] r.diff.insertions[i].0)
                < from.elements@.len() by {
                if i < c.diff.insertions.len() {
                    assert(r.diff.insertions[i] == c.diff.insertions[i]);
                }
            };
        },
        EditSpec::InsertFirst(n) => {
            assert forall|i: int| 0 <= i < r.diff.insertions.len() implies anchor(#[trigger] r.diff.insertions[i].0)
                < from.elements@.len() by {
                if i < c.diff.insertions.len() {
                    assert(r.diff.insertions[i] == c.diff.insertions[i]);
                }
            };
        },
        _ => {},
    }
}

/// Every insertion of a diff is anchored at an element of the original tree, never at one
/// of the target tree or at an inserted one.
pub proof fn lemma_anchors_in_from(from: SyntaxTree, to: SyntaxTree, script: Seq<RawEdit>)
    requires
        from.wf(),
        diff_spec(from, to, script) is Some,
    ensures
        anchors_in(diff_spec(from, to, script)->Some_0.diff, from),
{
    let es = normalize(script);
    lemma_run_anchors(es, es.len(), None, from, seq![0usize], to, seq![0usize], empty_diff());
}

} // verus!
