use puddlejumper::node::Context;
use puddlejumper::printer::PrintContext;
use puddlejumper::syntax::{FieldLabel, SyntaxDesc, SyntaxKind, SyntaxTree};

fn desc(kind: SyntaxKind, field: FieldLabel, text: &str, children: Vec<SyntaxDesc>) -> SyntaxDesc {
    SyntaxDesc { kind, field, text: text.to_string(), children }
}

fn doc(text: &str, children: Vec<SyntaxDesc>) -> SyntaxDesc {
    desc(SyntaxKind::Document, FieldLabel::NoField, text, children)
}

fn line(content: &str) -> SyntaxDesc {
    desc(
        SyntaxKind::Node,
        FieldLabel::FieldChildren,
        content,
        vec![desc(SyntaxKind::Content, FieldLabel::FieldContent, content, vec![])],
    )
}

fn line_with(span: &str, content: &str, wrapper_span: &str, kids: Vec<SyntaxDesc>) -> SyntaxDesc {
    desc(
        SyntaxKind::Node,
        FieldLabel::FieldChildren,
        span,
        vec![
            desc(SyntaxKind::Content, FieldLabel::FieldContent, content, vec![]),
            desc(SyntaxKind::Children, FieldLabel::FieldChildren, wrapper_span, kids),
        ],
    )
}

fn label(k: u8) -> String {
    String::from_utf8(vec![80, 48 + k]).unwrap()
}

#[test]
fn test_extract_priorities_marks_parent() {
    // A childless priority marker under "task" prioritizes "task" itself.
    let one = label(1);
    let code = format!("task\n  {one}");
    let tree = SyntaxTree::from_desc(&doc(
        &code,
        vec![line_with("task", "task", "\n  x", vec![line(&one)])],
    ));
    let mut context = Context::new(0);
    let root = context.load_document(&tree).unwrap();
    let priorities = context.extract_priorities(root);
    assert_eq!(priorities.len(), 1);
    let (id, p) = priorities[0];
    assert_eq!(p, 1);
    assert_eq!(PrintContext::fmt(id, &context), format!("task\n    {one}\n"));
}

#[test]
fn test_extract_priorities_marks_children() {
    // A priority marker with its own children prioritizes those children.
    let two = label(2);
    let code = format!("task\n  {two}\n    sub");
    let tree = SyntaxTree::from_desc(&doc(
        &code,
        vec![line_with(
            "task",
            "task",
            "\n  x",
            vec![line_with(&two, &two, "\n    sub", vec![line("sub")])],
        )],
    ));
    let mut context = Context::new(0);
    let root = context.load_document(&tree).unwrap();
    let priorities = context.extract_priorities(root);
    assert_eq!(priorities.len(), 1);
    let (id, p) = priorities[0];
    assert_eq!(p, 2);
    assert_eq!(PrintContext::fmt(id, &context), "sub\n");
}

#[test]
fn test_make_prioritized_list() {
    let one = label(1);
    let three = label(3);
    let code = format!("alpha\n  {three}\nbeta\n  {one}");
    let tree = SyntaxTree::from_desc(&doc(
        &code,
        vec![
            line_with("alpha", "alpha", "\n  x", vec![line(&three)]),
            line_with("beta", "beta", "\n  y", vec![line(&one)]),
        ],
    ));
    let mut context = Context::new(0);
    let root = context.load_document(&tree).unwrap();
    let list = context.make_prioritized_list(root);
    // Occupied priorities come out in order: first the bucket labeled for
    // one, holding beta, then the bucket labeled for three, holding alpha.
    let expected = format!(
        "{one}\n    beta\n        {one}\n{three}\n    alpha\n        {three}\n"
    );
    assert_eq!(PrintContext::fmt(list, &context), expected);
}
