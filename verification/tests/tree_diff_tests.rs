use puddlejumper::syntax::{FieldLabel, SyntaxDesc, SyntaxKind, SyntaxTree};
use puddlejumper::text_diff::compute_diff;
use puddlejumper::tree_diff::{OpF, Update, UpdateContext};

fn desc(kind: SyntaxKind, field: FieldLabel, text: &str, children: Vec<SyntaxDesc>) -> SyntaxDesc {
    SyntaxDesc { kind, field, text: text.to_string(), children }
}

fn doc(text: &str, children: Vec<SyntaxDesc>) -> SyntaxDesc {
    desc(SyntaxKind::Document, FieldLabel::NoField, text, children)
}

fn line(content: &str) -> SyntaxDesc {
    desc(
        SyntaxKind::Node,
        FieldLabel::FieldChildren,
        content,
        vec![desc(SyntaxKind::Content, FieldLabel::FieldContent, content, vec![])],
    )
}

fn line_ref(content: &str) -> SyntaxDesc {
    desc(
        SyntaxKind::Node,
        FieldLabel::FieldChildren,
        content,
        vec![desc(SyntaxKind::Ref, FieldLabel::FieldContent, content, vec![])],
    )
}

fn line_with(span: &str, content: &str, wrapper_span: &str, kids: Vec<SyntaxDesc>) -> SyntaxDesc {
    desc(
        SyntaxKind::Node,
        FieldLabel::FieldChildren,
        span,
        vec![
            desc(SyntaxKind::Content, FieldLabel::FieldContent, content, vec![]),
            desc(SyntaxKind::Children, FieldLabel::FieldChildren, wrapper_span, kids),
        ],
    )
}

fn make_update(code1: &str, code2: &str, old: SyntaxDesc, new: SyntaxDesc) -> UpdateContext {
    let update = Update {
        old_text: code1.to_string(),
        old_tree: SyntaxTree::from_desc(&old),
        new_text: code2.to_string(),
        new_tree: SyntaxTree::from_desc(&new),
        diff: compute_diff(code1, code2),
    };
    UpdateContext::new(update)
}

fn exact(o: &str, n: &str) -> OpF<String> {
    OpF::Exact { old: o.to_string(), new: n.to_string() }
}

fn upd(o: &str, n: &str) -> OpF<String> {
    OpF::Update { old: o.to_string(), new: n.to_string() }
}

fn ups(o: &str, n: &str) -> OpF<String> {
    OpF::UpdateScalar { old: o.to_string(), new: n.to_string() }
}

fn inss(n: &str) -> OpF<String> {
    OpF::InsertSubtree { new: n.to_string() }
}

fn ins(n: &str) -> OpF<String> {
    OpF::Insert { new: n.to_string() }
}

fn dels(o: &str) -> OpF<String> {
    OpF::DeleteSubtree { old: o.to_string() }
}

#[test]
fn test_diff_noop() {
    let code = "hello\nworld";
    let uc = make_update(
        code,
        code,
        doc(code, vec![line("hello"), line("world")]),
        doc(code, vec![line("hello"), line("world")]),
    );
    assert_eq!(uc.get_root_diff_debug(), vec![exact("hello\nworld", "hello\nworld")]);
}

#[test]
fn test_diff_content() {
    let code1 = "hello\nworld";
    let code2 = "hello\nwarld";
    let uc = make_update(
        code1,
        code2,
        doc(code1, vec![line("hello"), line("world")]),
        doc(code2, vec![line("hello"), line("warld")]),
    );
    println!("{:#?}", uc.get_root_diff_debug());
    assert_eq!(
        uc.get_root_diff_debug(),
        vec![
            upd("hello\nworld", "hello\nwarld"),
            exact("hello", "hello"),
            upd("world", "warld"),
            ups("world", "warld"),
        ]
    );
}

#[test]
fn test_diff_append() {
    let code1 = "hello\nworld";
    let code2 = "hello\nworld\nfoo";
    let uc = make_update(
        code1,
        code2,
        doc(code1, vec![line("hello"), line("world")]),
        doc(code2, vec![line("hello"), line("world"), line("foo")]),
    );
    println!("{:#?}", uc.get_root_diff_debug());
    assert_eq!(
        uc.get_root_diff_debug(),
        vec![
            upd("hello\nworld", "hello\nworld\nfoo"),
            exact("hello", "hello"),
            exact("world", "world"),
            inss("foo"),
        ]
    );
}

#[test]
fn test_diff_delete_start() {
    let code1 = "hello\nworld";
    let code2 = "world";
    let uc = make_update(
        code1,
        code2,
        doc(code1, vec![line("hello"), line("world")]),
        doc(code2, vec![line("world")]),
    );
    assert_eq!(
        uc.get_root_diff_debug(),
        vec![
            upd("hello\nworld", "world"),
            dels("hello"),
            exact("world", "world"),
        ]
    );
}

#[test]
fn test_diff_delete_end() {
    let code1 = "hello\nworld";
    let code2 = "hello";
    let uc = make_update(
        code1,
        code2,
        doc(code1, vec![line("hello"), line("world")]),
        doc(code2, vec![line("hello")]),
    );
    println!("{:#?}", uc.get_root_diff_debug());
    assert_eq!(
        uc.get_root_diff_debug(),
        vec![
            upd("hello\nworld", "hello"),
            exact("hello", "hello"),
            dels("world"),
        ]
    );
}

#[test]
fn test_diff_delete_multiple() {
    let code1 = "hello\nworld\nfoo";
    let code2 = "world";
    let uc = make_update(
        code1,
        code2,
        doc(code1, vec![line("hello"), line("world"), line("foo")]),
        doc(code2, vec![line("world")]),
    );
    println!("{:#?}", uc.get_root_diff_debug());
    assert_eq!(
        uc.get_root_diff_debug(),
        vec![
            upd("hello\nworld\nfoo", "world"),
            dels("hello"),
            exact("world", "world"),
            dels("foo"),
        ]
    );
}

#[test]
fn test_diff_change_kind_single() {
    let code1 = "hello\nworld";
    let code2 = "hello\n  world";
    let uc = make_update(
        code1,
        code2,
        doc(code1, vec![line("hello"), line("world")]),
        doc(code2, vec![line_with(code2, "hello", "\n  world", vec![line("world")])]),
    );
    println!("{:#?}", uc.get_root_diff_debug());
    assert_eq!(
        uc.get_root_diff_debug(),
        vec![
            upd("hello\nworld", "hello\n  world"),
            upd("hello", "hello\n  world"),
            exact("hello", "hello"),
            ins("\n  world"),
            exact("world", "world"),
        ]
    );
}

#[test]
fn test_diff_change_kind_multiple() {
    let code1 = "hello\nworld\nfoo";
    let code2 = "hello\n  world\n  @foo";
    let uc = make_update(
        code1,
        code2,
        doc(code1, vec![line("hello"), line("world"), line("foo")]),
        doc(
            code2,
            vec![line_with(
                code2,
                "hello",
                "\n  world\n  @foo",
                vec![line("world"), line_ref("@foo")],
            )],
        ),
    );
    assert_eq!(
        uc.get_root_diff_debug(),
        vec![
            upd("hello\nworld\nfoo", "hello\n  world\n  @foo"),
            upd("hello", "hello\n  world\n  @foo"),
            exact("hello", "hello"),
            ins("\n  world\n  @foo"),
            exact("world", "world"),
            inss("@foo"),
            dels("foo"),
        ]
    );
}

#[test]
fn test_diff_insert() {
    let code1 = "hello\n    world";
    let code2 = "hello\n    world\n    x";
    let uc = make_update(
        code1,
        code2,
        doc(code1, vec![line_with(code1, "hello", "\n    world", vec![line("world")])]),
        doc(
            code2,
            vec![line_with(code2, "hello", "\n    world\n    x", vec![line("world"), line("x")])],
        ),
    );
    println!("{:#?}", uc.get_root_diff_debug());
    assert_eq!(
        uc.get_root_diff_debug(),
        vec![
            upd("hello\n    world", "hello\n    world\n    x"),
            upd("hello\n    world", "hello\n    world\n    x"),
            exact("hello", "hello"),
            upd("\n    world", "\n    world\n    x"),
            exact("world", "world"),
            inss("x"),
        ]
    );
}

#[test]
fn test_diff_insert2() {
    let code1 = "hello\n    world\nfoo";
    let code2 = "hello\n    world\n    x\nfoo";
    let uc = make_update(
        code1,
        code2,
        doc(
            code1,
            vec![
                line_with("hello\n    world", "hello", "\n    world", vec![line("world")]),
                line("foo"),
            ],
        ),
        doc(
            code2,
            vec![
                line_with(
                    "hello\n    world\n    x",
                    "hello",
                    "\n    world\n    x",
                    vec![line("world"), line("x")],
                ),
                line("foo"),
            ],
        ),
    );
    assert_eq!(
        uc.get_root_diff_debug(),
        vec![
            upd("hello\n    world\nfoo", "hello\n    world\n    x\nfoo"),
            upd("hello\n    world", "hello\n    world\n    x"),
            exact("hello", "hello"),
            upd("\n    world", "\n    world\n    x"),
            exact("world", "world"),
            inss("x"),
            exact("foo", "foo"),
        ]
    );
}

#[test]
fn test_group_by_source_node() {
    let code1 = "hello\nworld";
    let code2 = "hello";
    let uc = make_update(
        code1,
        code2,
        doc(code1, vec![line("hello"), line("world")]),
        doc(code2, vec![line("hello")]),
    );
    let groups = uc.get_root_diff_by_source_node().unwrap();
    // The root anchors its own Update and the deleted subtree; the kept
    // line anchors its own Exact.
    assert_eq!(groups.len(), 2);
    assert_eq!(groups[0].0, 0);
    assert_eq!(groups[0].1.len(), 2);
    assert_eq!(groups[1].1.len(), 1);
    assert!(matches!(groups[1].1[0], OpF::Exact { .. }));
}

#[test]
fn test_reconciliation_pairs() {
    let code1 = "hello\nworld";
    let code2 = "hello\nwarld";
    let uc = make_update(
        code1,
        code2,
        doc(code1, vec![line("hello"), line("world")]),
        doc(code2, vec![line("hello"), line("warld")]),
    );
    let pairs = uc.get_root_diff_reconciliations_by_target_node().unwrap();
    // Root, the kept line's node and content, and the edited node and its
    // rewritten content leaf are all matched.
    assert_eq!(pairs.len(), 4);
    // Every key is the new side of its own operation.
    for (key, op) in &pairs {
        let (_, new_side) = op.reconciliation().unwrap();
        assert_eq!(*key, new_side);
    }
}

#[test]
fn test_check_texts_bounded() {
    let code = "hello\nworld";
    let tree = SyntaxTree::from_desc(&doc(code, vec![line("hello"), line("world")]));
    assert!(puddlejumper::tree_diff::check_texts_bounded(&tree));
}
