use puddlejumper::node::{Context, NodeCursorImmutable, NodeId};
use puddlejumper::printer::PrintContext;
use puddlejumper::syntax::{FieldLabel, SyntaxDesc, SyntaxKind, SyntaxTree};
use puddlejumper::text_diff::compute_diff;
use puddlejumper::tree_diff::{Update, UpdateContext};

fn desc(kind: SyntaxKind, field: FieldLabel, text: &str, children: Vec<SyntaxDesc>) -> SyntaxDesc {
    SyntaxDesc { kind, field, text: text.to_string(), children }
}

fn doc(text: &str, children: Vec<SyntaxDesc>) -> SyntaxDesc {
    desc(SyntaxKind::Document, FieldLabel::NoField, text, children)
}

fn line(content: &str) -> SyntaxDesc {
    desc(
        SyntaxKind::Node,
        FieldLabel::FieldChildren,
        content,
        vec![desc(SyntaxKind::Content, FieldLabel::FieldContent, content, vec![])],
    )
}

fn split_by_updated_at(context: &Context, root_node: NodeId) -> (Vec<NodeId>, Vec<NodeId>) {
    let mut updated = Vec::new();
    let mut not_updated = Vec::new();
    let mut cursor = NodeCursorImmutable::new(context, root_node);
    while let Some(node_id) = cursor.next() {
        let metadata = context.get_node_metadata(node_id).unwrap();
        if metadata.updated_at == metadata.created_at {
            not_updated.push(node_id);
        } else {
            updated.push(node_id);
        }
    }
    (updated, not_updated)
}

fn reconcile_changes(
    code1: &str,
    desc1: SyntaxDesc,
    code2: &str,
    desc2: SyntaxDesc,
) -> (Context, NodeId) {
    let tree1 = SyntaxTree::from_desc(&desc1);
    let tree2 = SyntaxTree::from_desc(&desc2);

    let mut context1 = Context::new(0);
    context1.load_document(&tree1).unwrap();

    let update = Update {
        old_text: code1.to_string(),
        old_tree: tree1,
        new_text: code2.to_string(),
        new_tree: tree2,
        diff: compute_diff(code1, code2),
    };
    let update_context = UpdateContext::new(update);

    let mut context2 = Context::new(1);
    let id2 = context2.load_document(&update_context.update.new_tree).unwrap();

    Context::reconcile_changes(&mut context2, &update_context, &context1, id2);
    (context2, id2)
}

#[test]
fn test_patch_noop() {
    let code = "hello\nworld";
    let d1 = doc(code, vec![line("hello"), line("world")]);
    let d2 = doc(code, vec![line("hello"), line("world")]);
    let (context2, id2) = reconcile_changes(code, d1, code, d2);
    let (updated, not_updated) = split_by_updated_at(&context2, id2);
    assert_eq!(updated.len(), 0);
    assert_eq!(
        not_updated
            .iter()
            .map(|&id| PrintContext::fmt(id, &context2))
            .collect::<Vec<_>>(),
        vec!["hello\nworld\n", "hello\n", "world\n"]
    );
}

#[test]
fn test_patch_content() {
    let code1 = "hello\nworld";
    let code2 = "hello\nwarld";
    let d1 = doc(code1, vec![line("hello"), line("world")]);
    let d2 = doc(code2, vec![line("hello"), line("warld")]);
    let (context2, id2) = reconcile_changes(code1, d1, code2, d2);
    let (updated, not_updated) = split_by_updated_at(&context2, id2);
    assert_eq!(
        updated
            .iter()
            .map(|&id| PrintContext::fmt(id, &context2))
            .collect::<Vec<_>>(),
        vec!["hello\nwarld\n", "warld\n"]
    );
    assert_eq!(
        not_updated
            .iter()
            .map(|&id| PrintContext::fmt(id, &context2))
            .collect::<Vec<_>>(),
        vec!["hello\n"]
    );
}

#[test]
fn test_patch_append_keeps_old_and_stamps_new() {
    let code1 = "hello\nworld";
    let code2 = "hello\nworld\nfoo";
    let d1 = doc(code1, vec![line("hello"), line("world")]);
    let d2 = doc(code2, vec![line("hello"), line("world"), line("foo")]);
    let (context2, id2) = reconcile_changes(code1, d1, code2, d2);

    let mut cursor = NodeCursorImmutable::new(&context2, id2);
    let mut texts_and_times = Vec::new();
    while let Some(node_id) = cursor.next() {
        let m = context2.get_node_metadata(node_id).unwrap();
        texts_and_times.push((PrintContext::fmt(node_id, &context2), m.created_at, m.updated_at));
    }
    // hello and world keep the old snapshot's metadata; foo is fresh.
    assert!(texts_and_times.contains(&("hello\n".to_string(), 0, 0)));
    assert!(texts_and_times.contains(&("world\n".to_string(), 0, 0)));
    assert!(texts_and_times.contains(&("foo\n".to_string(), 1, 1)));
}

#[test]
fn test_reconcile_tree_copies_pairwise() {
    let code = "hello\nworld";
    let d1 = doc(code, vec![line("hello"), line("world")]);
    let d2 = doc(code, vec![line("hello"), line("world")]);
    let tree1 = SyntaxTree::from_desc(&d1);
    let tree2 = SyntaxTree::from_desc(&d2);
    let mut context1 = Context::new(3);
    let id1 = context1.load_document(&tree1).unwrap();
    let mut context2 = Context::new(8);
    let id2 = context2.load_document(&tree2).unwrap();
    Context::reconcile_tree(&mut context2, &context1, id1, id2, false);
    // Every aligned node carries the old snapshot's timestamps.
    let mut cursor = NodeCursorImmutable::new(&context2, id2);
    while let Some(node_id) = cursor.next() {
        let m = context2.get_node_metadata(node_id).unwrap();
        assert_eq!(m.created_at, 3);
        assert_eq!(m.updated_at, 3);
    }
}
