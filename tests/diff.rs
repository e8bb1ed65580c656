use syntax_tree_diff::ted::{generate_edit, RawEdit, TreeEdit};
use syntax_tree_diff::{diff, SyntaxTree, TreeDiff, TreeDiffInsertPos, TreeElement};

const BLOCK: u16 = 1;
const CALL: u16 = 2;
const IDENT: u16 = 3;

fn node(kind: u16, children: Vec<usize>) -> TreeElement {
    TreeElement { kind, text: String::new(), children }
}

fn tok(text: &str) -> TreeElement {
    TreeElement { kind: IDENT, text: text.to_string(), children: Vec::new() }
}

fn tree(elements: Vec<TreeElement>) -> SyntaxTree {
    SyntaxTree { elements }
}

/// A block of tokens, the block at index 0 and token `i` at index `i + 1`.
fn block(texts: &[&str]) -> SyntaxTree {
    let mut elements = vec![node(BLOCK, (1..=texts.len()).collect())];
    for t in texts {
        elements.push(tok(t));
    }
    tree(elements)
}

fn same() -> RawEdit {
    RawEdit::Replace(Vec::new())
}

fn empty() -> TreeDiff {
    TreeDiff { replacements: Vec::new(), deletions: Vec::new(), insertions: Vec::new() }
}

#[test]
fn it_works() {
    let result = 2 + 2;
    assert_eq!(result, 4);
}

#[test]
fn insert_between_tokens() {
    let from = block(&["a", "b", "c"]);
    let to = block(&["a", "x", "b", "c"]);
    let script = vec![RawEdit::Replace(vec![same(), RawEdit::Insert, same(), same()])];
    let d = diff(&from, &to, &script).unwrap();
    assert_eq!(d.insertions, vec![(TreeDiffInsertPos::After(1), vec![2])]);
    assert!(d.deletions.is_empty());
    assert!(d.replacements.is_empty());
}

#[test]
fn delete_first_token() {
    let from = block(&["a", "b"]);
    let to = block(&["b"]);
    let script = vec![RawEdit::Replace(vec![RawEdit::Remove, same()])];
    let d = diff(&from, &to, &script).unwrap();
    assert_eq!(d.deletions, vec![1]);
    assert!(d.insertions.is_empty());
    assert!(d.replacements.is_empty());
}

#[test]
fn replace_single_token() {
    let from = block(&["a"]);
    let to = block(&["z"]);
    let script = vec![RawEdit::Replace(vec![RawEdit::Remove, RawEdit::Insert])];
    let d = diff(&from, &to, &script).unwrap();
    assert_eq!(d.replacements, vec![(1, 1)]);
    assert!(d.insertions.is_empty());
    assert!(d.deletions.is_empty());
}

#[test]
fn replace_single_token_insert_first() {
    let from = block(&["a"]);
    let to = block(&["z"]);
    let script = vec![RawEdit::Replace(vec![RawEdit::Insert, RawEdit::Remove])];
    let d = diff(&from, &to, &script).unwrap();
    assert_eq!(d.replacements, vec![(1, 1)]);
    assert!(d.insertions.is_empty());
    assert!(d.deletions.is_empty());
}

#[test]
fn fill_empty_block() {
    let from = block(&[]);
    let to = block(&["a", "b"]);
    let script = vec![RawEdit::Replace(vec![RawEdit::Insert, RawEdit::Insert])];
    let d = diff(&from, &to, &script).unwrap();
    assert_eq!(d.insertions, vec![(TreeDiffInsertPos::AsFirstChild(0), vec![1, 2])]);
    assert!(d.deletions.is_empty());
    assert!(d.replacements.is_empty());
}

#[test]
fn recurse_into_call() {
    let from = tree(vec![node(BLOCK, vec![1]), node(CALL, vec![2]), tok("f")]);
    let to = tree(vec![node(BLOCK, vec![1]), node(CALL, vec![2]), tok("g")]);
    let script = vec![RawEdit::Replace(vec![RawEdit::Replace(vec![RawEdit::Remove, RawEdit::Insert])])];
    let d = diff(&from, &to, &script).unwrap();
    assert_eq!(d.replacements, vec![(2, 2)]);
    assert!(d.insertions.is_empty());
    assert!(d.deletions.is_empty());
}

#[test]
fn identical_trees_give_empty_diff() {
    let from = tree(vec![node(BLOCK, vec![1, 3]), node(CALL, vec![2]), tok("f"), tok("x")]);
    let to = tree(vec![node(BLOCK, vec![1, 3]), node(CALL, vec![2]), tok("f"), tok("x")]);
    let script = vec![RawEdit::Replace(vec![RawEdit::Replace(vec![same()]), same()])];
    assert_eq!(diff(&from, &to, &script), Some(empty()));
}

#[test]
fn empty_script_gives_empty_diff() {
    let from = block(&[]);
    assert_eq!(diff(&from, &from, &[]), Some(empty()));
}

#[test]
fn three_inserts_become_one_batch() {
    let from = block(&["a", "d"]);
    let to = block(&["a", "b", "c", "e", "d"]);
    let script = vec![RawEdit::Replace(vec![
        same(),
        RawEdit::Insert,
        RawEdit::Insert,
        RawEdit::Insert,
        same(),
    ])];
    let d = diff(&from, &to, &script).unwrap();
    assert_eq!(d.insertions, vec![(TreeDiffInsertPos::After(1), vec![2, 3, 4])]);
}

#[test]
fn insert_then_remove_fuse() {
    let edits = generate_edit(&[same(), RawEdit::Insert, RawEdit::Remove, same()]);
    assert_eq!(edits, vec![TreeEdit::Same, TreeEdit::RemoveInsert, TreeEdit::Same]);
}

#[test]
fn fusion_pairs_left_to_right() {
    let edits = generate_edit(&[RawEdit::Remove, RawEdit::Insert, RawEdit::Remove]);
    assert_eq!(edits, vec![TreeEdit::RemoveInsert, TreeEdit::Remove]);
    let edits = generate_edit(&[RawEdit::Insert, RawEdit::Insert, RawEdit::Remove, RawEdit::Insert]);
    assert_eq!(edits, vec![TreeEdit::InsertFirst(1), TreeEdit::RemoveInsert, TreeEdit::Insert(1)]);
}

#[test]
fn leading_inserts_anchor_at_parent() {
    let edits = generate_edit(&[RawEdit::Insert, RawEdit::Insert, same()]);
    assert_eq!(edits, vec![TreeEdit::InsertFirst(2), TreeEdit::Same]);
}

#[test]
fn identical_pair_collapses_to_same() {
    let edits = generate_edit(&[RawEdit::Replace(vec![same(), same()])]);
    assert_eq!(edits, vec![TreeEdit::Same]);
    let edits = generate_edit(&[RawEdit::Replace(vec![same(), RawEdit::Remove])]);
    assert_eq!(edits, vec![TreeEdit::Replace(vec![TreeEdit::Same, TreeEdit::Remove])]);
}

#[test]
fn empty_script_normalizes_to_empty() {
    assert_eq!(generate_edit(&[]), Vec::<TreeEdit>::new());
}

#[test]
fn script_longer_than_tree_is_refused() {
    let from = block(&["a"]);
    let to = block(&["a"]);
    let script = vec![RawEdit::Replace(vec![same(), RawEdit::Remove])];
    assert_eq!(diff(&from, &to, &script), None);
    assert_eq!(diff(&from, &to, &[same(), same()]), None);
}

#[test]
fn insert_at_root_is_refused() {
    let from = block(&[]);
    let to = block(&[]);
    assert_eq!(diff(&from, &to, &[RawEdit::Insert]), None);
}

#[test]
fn insert_batch_takes_what_remains() {
    let from = block(&["a"]);
    let to = block(&["a", "b"]);
    let script = vec![RawEdit::Replace(vec![same(), RawEdit::Insert, RawEdit::Insert])];
    let d = diff(&from, &to, &script).unwrap();
    assert_eq!(d.insertions, vec![(TreeDiffInsertPos::After(1), vec![2])]);
}

#[test]
fn well_formedness() {
    assert!(block(&["a"]).is_well_formed());
    assert!(!tree(Vec::new()).is_well_formed());
    assert!(!tree(vec![node(BLOCK, vec![3])]).is_well_formed());
}
