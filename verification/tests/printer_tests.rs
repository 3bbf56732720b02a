use puddlejumper::printer::pretty_print;
use puddlejumper::syntax::{FieldLabel, SyntaxDesc, SyntaxKind, SyntaxTree};

fn desc(kind: SyntaxKind, field: FieldLabel, text: &str, children: Vec<SyntaxDesc>) -> SyntaxDesc {
    SyntaxDesc { kind, field, text: text.to_string(), children }
}

fn doc(text: &str, children: Vec<SyntaxDesc>) -> SyntaxDesc {
    desc(SyntaxKind::Document, FieldLabel::NoField, text, children)
}

fn content(text: &str) -> SyntaxDesc {
    desc(SyntaxKind::Content, FieldLabel::FieldContent, text, vec![])
}

fn reference(text: &str) -> SyntaxDesc {
    desc(SyntaxKind::Ref, FieldLabel::FieldContent, text, vec![])
}

fn binding(span: &str, ident: &str) -> SyntaxDesc {
    desc(
        SyntaxKind::Binding,
        FieldLabel::FieldBinding,
        span,
        vec![desc(SyntaxKind::Identifier, FieldLabel::FieldIdentifier, ident, vec![])],
    )
}

#[test]
fn test_pretty_print() {
    // "hello" with "world" as an indented child two lines later.
    let tree = SyntaxTree::from_desc(&doc(
        "hello\n\n  world",
        vec![desc(
            SyntaxKind::Node,
            FieldLabel::FieldChildren,
            "hello\n\n  world",
            vec![
                content("hello"),
                desc(
                    SyntaxKind::Children,
                    FieldLabel::FieldChildren,
                    "\n\n  world",
                    vec![desc(
                        SyntaxKind::Node,
                        FieldLabel::FieldChildren,
                        "world",
                        vec![content("world")],
                    )],
                ),
            ],
        )],
    ));
    assert_eq!(pretty_print(&tree, 0), "hello\n    world\n");
}

#[test]
fn test_pretty_print_bindings() {
    // A binding line, then a reference on the next line.
    let tree = SyntaxTree::from_desc(&doc(
        "@hello:\n@world",
        vec![desc(
            SyntaxKind::Node,
            FieldLabel::FieldChildren,
            "@hello:\n@world",
            vec![binding("@hello:", "hello"), reference("@world")],
        )],
    ));
    assert_eq!(pretty_print(&tree, 0), "@hello:@world\n");
}

#[test]
fn test_pretty_print_block() {
    // A binding with empty content, then a block whose header holds a
    // reference.
    let tree = SyntaxTree::from_desc(&doc(
        "@hello:\n\n#  @world",
        vec![
            desc(
                SyntaxKind::Node,
                FieldLabel::FieldChildren,
                "@hello:",
                vec![binding("@hello:", "hello"), content("")],
            ),
            desc(
                SyntaxKind::Block,
                FieldLabel::FieldChildren,
                "#  @world",
                vec![desc(
                    SyntaxKind::BlockHeader,
                    FieldLabel::FieldHeader,
                    "#  @world",
                    vec![reference("@world")],
                )],
            ),
        ],
    ));
    assert_eq!(pretty_print(&tree, 0), "@hello:\n# @world\n");
}

#[test]
fn puddlejumper_test_pretty_print() {
    let tree = SyntaxTree::from_desc(&doc(
        "hello\n\n  world",
        vec![desc(
            SyntaxKind::Node,
            FieldLabel::FieldChildren,
            "hello\n\n  world",
            vec![
                content("hello"),
                desc(
                    SyntaxKind::Children,
                    FieldLabel::FieldChildren,
                    "\n\n  world",
                    vec![desc(
                        SyntaxKind::Node,
                        FieldLabel::FieldChildren,
                        "world",
                        vec![content("world")],
                    )],
                ),
            ],
        )],
    ));
    assert_eq!(pretty_print(&tree, 0), "hello\n    world\n");
}

#[test]
fn puddlejumper_test_pretty_print_bindings() {
    let tree = SyntaxTree::from_desc(&doc(
        "@hello:\n@world",
        vec![desc(
            SyntaxKind::Node,
            FieldLabel::FieldChildren,
            "@hello:\n@world",
            vec![binding("@hello:", "hello"), reference("@world")],
        )],
    ));
    assert_eq!(pretty_print(&tree, 0), "@hello:@world\n");
}

#[test]
fn puddlejumper_test_pretty_print_block() {
    let tree = SyntaxTree::from_desc(&doc(
        "@hello:\n\n#  @world",
        vec![
            desc(
                SyntaxKind::Node,
                FieldLabel::FieldChildren,
                "@hello:",
                vec![binding("@hello:", "hello"), content("")],
            ),
            desc(
                SyntaxKind::Block,
                FieldLabel::FieldChildren,
                "#  @world",
                vec![desc(
                    SyntaxKind::BlockHeader,
                    FieldLabel::FieldHeader,
                    "#  @world",
                    vec![reference("@world")],
                )],
            ),
        ],
    ));
    assert_eq!(pretty_print(&tree, 0), "@hello:\n# @world\n");
}
