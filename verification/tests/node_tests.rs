use puddlejumper::node::{Context, NodeCursorImmutable};
use puddlejumper::printer::PrintContext;
use puddlejumper::syntax::{FieldLabel, SyntaxDesc, SyntaxKind, SyntaxTree};

fn desc(kind: SyntaxKind, field: FieldLabel, text: &str, children: Vec<SyntaxDesc>) -> SyntaxDesc {
    SyntaxDesc { kind, field, text: text.to_string(), children }
}

fn doc(text: &str, children: Vec<SyntaxDesc>) -> SyntaxDesc {
    desc(SyntaxKind::Document, FieldLabel::NoField, text, children)
}

fn line(content: &str) -> SyntaxDesc {
    desc(
        SyntaxKind::Node,
        FieldLabel::FieldChildren,
        content,
        vec![desc(SyntaxKind::Content, FieldLabel::FieldContent, content, vec![])],
    )
}

fn line_with(span: &str, content: &str, wrapper_span: &str, kids: Vec<SyntaxDesc>) -> SyntaxDesc {
    desc(
        SyntaxKind::Node,
        FieldLabel::FieldChildren,
        span,
        vec![
            desc(SyntaxKind::Content, FieldLabel::FieldContent, content, vec![]),
            desc(SyntaxKind::Children, FieldLabel::FieldChildren, wrapper_span, kids),
        ],
    )
}

#[test]
fn test_node_iterator_basic() {
    let code = "hello\n  x\nworld\n  y";
    let tree = SyntaxTree::from_desc(&doc(
        code,
        vec![
            line_with("hello\n  x", "hello", "\n  x", vec![line("x")]),
            line_with("world\n  y", "world", "\n  y", vec![line("y")]),
        ],
    ));
    let mut context = Context::new(0);
    let id = context.load_document(&tree).unwrap();
    let mut cursor = NodeCursorImmutable::new(&context, id);

    let mut out = String::new();
    while let Some(node_id) = cursor.next() {
        out.push_str(&PrintContext::fmt(node_id, &context));
    }
    assert_eq!(
        out,
        r#"hello
    x
world
    y
hello
    x
x
world
    y
y
"#
    );
}

#[test]
fn test_load_block_without_header_is_dropped() {
    // A block whose header field is missing builds no node; the document
    // still builds with its other children.
    let code = "hello";
    let tree = SyntaxTree::from_desc(&doc(
        code,
        vec![
            desc(SyntaxKind::Block, FieldLabel::FieldChildren, "#", vec![]),
            line("hello"),
        ],
    ));
    let mut context = Context::new(0);
    let id = context.load_document(&tree).unwrap();
    assert_eq!(PrintContext::fmt(id, &context), "hello\n");
}

#[test]
fn test_load_block_with_header() {
    let d = doc(
        "@b:\n# hdr",
        vec![desc(
            SyntaxKind::Block,
            FieldLabel::FieldChildren,
            "@b:\n# hdr",
            vec![
                desc(
                    SyntaxKind::Binding,
                    FieldLabel::FieldBinding,
                    "@b:",
                    vec![desc(SyntaxKind::Identifier, FieldLabel::FieldIdentifier, "b", vec![])],
                ),
                desc(
                    SyntaxKind::Node,
                    FieldLabel::FieldHeader,
                    "hdr",
                    vec![desc(SyntaxKind::Content, FieldLabel::FieldContent, "hdr", vec![])],
                ),
            ],
        )],
    );
    let tree = SyntaxTree::from_desc(&d);
    let mut context = Context::new(0);
    let id = context.load_document(&tree).unwrap();
    // The block renders its binding line, then the header at the same level.
    assert_eq!(PrintContext::fmt(id, &context), "b:\nhdr\n");
}

#[test]
fn test_load_unrecognized_root_builds_nothing() {
    let tree = SyntaxTree::from_desc(&desc(
        SyntaxKind::Token(3),
        FieldLabel::NoField,
        "???",
        vec![],
    ));
    let mut context = Context::new(0);
    assert!(context.load_document(&tree).is_none());
}

#[test]
fn test_lookup_finds_built_nodes() {
    let code = "hello\nworld";
    let tree = SyntaxTree::from_desc(&doc(code, vec![line("hello"), line("world")]));
    let mut context = Context::new(0);
    let root = context.load_document(&tree).unwrap();
    // The root was built from syntax node zero.
    assert_eq!(context.lookup(0), Some(root));
    assert_eq!(context.get_ts_node_id(root), Some(0));
    // An identity outside the tree resolves to nothing.
    assert_eq!(context.lookup(999), None);
}
