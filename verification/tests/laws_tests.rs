//! Scenario tests for the engine's stated behaviour: a text diffed against
//! itself, an appended line, a deleted line, and the reconciliation
//! outcomes each case promises.

use puddlejumper::node::{Context, NodeCursorImmutable};
use puddlejumper::printer::PrintContext;
use puddlejumper::syntax::{FieldLabel, SyntaxDesc, SyntaxKind, SyntaxTree};
use puddlejumper::text_diff::compute_diff;
use puddlejumper::tree_diff::{OpF, Update, UpdateContext};

fn desc(kind: SyntaxKind, field: FieldLabel, text: &str, children: Vec<SyntaxDesc>) -> SyntaxDesc {
    SyntaxDesc { kind, field, text: text.to_string(), children }
}

fn doc(text: &str, children: Vec<SyntaxDesc>) -> SyntaxDesc {
    desc(SyntaxKind::Document, FieldLabel::NoField, text, children)
}

fn line(content: &str) -> SyntaxDesc {
    desc(
        SyntaxKind::Node,
        FieldLabel::FieldChildren,
        content,
        vec![desc(SyntaxKind::Content, FieldLabel::FieldContent, content, vec![])],
    )
}

fn make_update(code1: &str, code2: &str, old: SyntaxDesc, new: SyntaxDesc) -> UpdateContext {
    let update = Update {
        old_text: code1.to_string(),
        old_tree: SyntaxTree::from_desc(&old),
        new_text: code2.to_string(),
        new_tree: SyntaxTree::from_desc(&new),
        diff: compute_diff(code1, code2),
    };
    UpdateContext::new(update)
}

/// Diffing a text against itself yields exactly one `Exact` at the root.
#[test]
fn test_round_trip_single_exact() {
    let code = "hello\nworld";
    let uc = make_update(
        code,
        code,
        doc(code, vec![line("hello"), line("world")]),
        doc(code, vec![line("hello"), line("world")]),
    );
    let script = uc.get_root_diff().unwrap().clone();
    assert_eq!(script.len(), 1);
    assert!(matches!(script[0], OpF::Exact { old: 0, new: 0 }));
}

/// An edited word aligns structurally and rewrites the leaf in place, at a
/// cost of one edit.
#[test]
fn test_example_update_scalar() {
    let code1 = "hello\nworld";
    let code2 = "hello\nwarld";
    let uc = make_update(
        code1,
        code2,
        doc(code1, vec![line("hello"), line("world")]),
        doc(code2, vec![line("hello"), line("warld")]),
    );
    let hunks = uc.get_root_diff_debug();
    assert!(hunks.contains(&OpF::Update {
        old: code1.to_string(),
        new: code2.to_string(),
    }));
    assert!(hunks.contains(&OpF::Exact { old: "hello".to_string(), new: "hello".to_string() }));
    assert!(hunks.contains(&OpF::UpdateScalar {
        old: "world".to_string(),
        new: "warld".to_string(),
    }));
    assert_eq!(puddlejumper::levenshtein::levenshtein("world", "warld"), 1);
}

/// An appended line ends the script with a whole-subtree insertion; after
/// reconciliation the fresh node carries the new snapshot's timestamps and
/// the kept lines the old snapshot's.
#[test]
fn test_example_insert_subtree() {
    let code1 = "hello\nworld";
    let code2 = "hello\nworld\nfoo";
    let d1 = doc(code1, vec![line("hello"), line("world")]);
    let d2 = doc(code2, vec![line("hello"), line("world"), line("foo")]);
    let uc = make_update(code1, code2, d1, d2);
    let hunks = uc.get_root_diff_debug();
    assert_eq!(hunks.last().unwrap(), &OpF::InsertSubtree { new: "foo".to_string() });

    let tree1 = &uc.update.old_tree;
    let mut context1 = Context::new(7);
    context1.load_document(tree1).unwrap();
    let mut context2 = Context::new(9);
    let id2 = context2.load_document(&uc.update.new_tree).unwrap();
    Context::reconcile_changes(&mut context2, &uc, &context1, id2);

    let mut cursor = NodeCursorImmutable::new(&context2, id2);
    let mut seen = Vec::new();
    while let Some(node_id) = cursor.next() {
        let m = context2.get_node_metadata(node_id).unwrap();
        seen.push((PrintContext::fmt(node_id, &context2), m.created_at, m.updated_at));
    }
    assert!(seen.contains(&("foo\n".to_string(), 9, 9)));
    assert!(seen.contains(&("hello\n".to_string(), 7, 7)));
    assert!(seen.contains(&("world\n".to_string(), 7, 7)));
}

/// A deleted middle line leaves a whole-subtree deletion, with the kept
/// lines still matched exactly.
#[test]
fn test_example_delete_subtree() {
    let code1 = "hello\nworld\nfoo";
    let code2 = "hello\nfoo";
    let uc = make_update(
        code1,
        code2,
        doc(code1, vec![line("hello"), line("world"), line("foo")]),
        doc(code2, vec![line("hello"), line("foo")]),
    );
    let hunks = uc.get_root_diff_debug();
    assert!(hunks.contains(&OpF::DeleteSubtree { old: "world".to_string() }));
    assert!(hunks.contains(&OpF::Exact { old: "hello".to_string(), new: "hello".to_string() }));
    assert!(hunks.contains(&OpF::Exact { old: "foo".to_string(), new: "foo".to_string() }));
}

/// Reconciling a snapshot against an identical one leaves every node with
/// its modification time equal to its creation time.
#[test]
fn test_reconciliation_idempotence() {
    let code = "hello\nworld";
    let d1 = doc(code, vec![line("hello"), line("world")]);
    let d2 = doc(code, vec![line("hello"), line("world")]);
    let uc = make_update(code, code, d1, d2);

    let mut context1 = Context::new(0);
    context1.load_document(&uc.update.old_tree).unwrap();
    let mut context2 = Context::new(1);
    let id2 = context2.load_document(&uc.update.new_tree).unwrap();
    Context::reconcile_changes(&mut context2, &uc, &context1, id2);

    let mut cursor = NodeCursorImmutable::new(&context2, id2);
    while let Some(node_id) = cursor.next() {
        let m = context2.get_node_metadata(node_id).unwrap();
        assert_eq!(m.created_at, m.updated_at);
    }
}

/// Every old line and every new line is accounted for by exactly one
/// operation side across a mixed edit.
#[test]
fn test_coverage_mixed_edit() {
    let code1 = "hello\nworld\nfoo";
    let code2 = "world\nbar";
    let uc = make_update(
        code1,
        code2,
        doc(code1, vec![line("hello"), line("world"), line("foo")]),
        doc(code2, vec![line("world"), line("bar")]),
    );
    let script = uc.get_root_diff().unwrap();
    let n_old = uc.update.old_tree.node_count();
    let n_new = uc.update.new_tree.node_count();

    let mut old_covered = 0usize;
    let mut new_covered = 0usize;
    for op in script.iter() {
        match op {
            OpF::Exact { old, new } => {
                old_covered += subtree_size(&uc.update.old_tree, *old);
                new_covered += subtree_size(&uc.update.new_tree, *new);
            }
            OpF::UpdateScalar { old, new } => {
                old_covered += subtree_size(&uc.update.old_tree, *old);
                new_covered += subtree_size(&uc.update.new_tree, *new);
            }
            OpF::Update { .. } => {
                old_covered += 1;
                new_covered += 1;
            }
            OpF::Delete { .. } => old_covered += 1,
            OpF::DeleteSubtree { old } => old_covered += subtree_size(&uc.update.old_tree, *old),
            OpF::Insert { .. } => new_covered += 1,
            OpF::InsertSubtree { new } => new_covered += subtree_size(&uc.update.new_tree, *new),
        }
    }
    assert_eq!(old_covered, n_old);
    assert_eq!(new_covered, n_new);
}

fn subtree_size(tree: &SyntaxTree, i: usize) -> usize {
    tree.nodes[i].subtree_size
}
