use puddlejumper::text_diff::{compute_diff, Change, Point};

fn change(
    before: (usize, usize),
    after: (usize, usize),
    trimmed: usize,
    start: (usize, usize),
    old_end: (usize, usize),
    new_end: (usize, usize),
) -> Change {
    Change {
        before_start: before.0,
        before_end: before.1,
        after_start: after.0,
        after_end: after.1,
        after_trimmed_start: trimmed,
        start_position: Point { row: start.0, column: start.1 },
        old_end_position: Point { row: old_end.0, column: old_end.1 },
        new_end_position: Point { row: new_end.0, column: new_end.1 },
    }
}

#[test]
fn test_diff_simple_addition() {
    let before = r#"h"#;
    let after = r#"he"#;
    let diff = compute_diff(before, after);
    assert_eq!(
        &diff.changes,
        &vec![change((1, 1), (1, 2), 1, (0, 1), (0, 1), (0, 2))]
    );
    assert_eq!(&diff.get_hunks(before, after), &vec![("", "e")]);
}

#[test]
fn test_diff_simple_addition_line() {
    let before = r#"h"#;
    let after = r#"h
e"#;
    let diff = compute_diff(before, after);
    assert_eq!(
        &diff.changes,
        &vec![change((1, 1), (1, 3), 2, (0, 1), (0, 1), (1, 1))]
    );
    assert_eq!(&diff.get_hunks(before, after), &vec![("", "\ne")]);
}

#[test]
fn test_diff_addition() {
    let before = r#"hello"#;
    let after = r#"hello
world"#;
    let diff = compute_diff(before, after);
    assert_eq!(
        &diff.changes,
        &vec![change((5, 5), (5, 11), 6, (0, 5), (0, 5), (1, 5))]
    );
    assert_eq!(&diff.get_hunks(before, after), &vec![("", "\nworld")]);
}

#[test]
fn test_diff_deletion() {
    let before = r#"hello
world"#;
    let after = r#"hello"#;
    let diff = compute_diff(before, after);
    println!("{:#?}", diff);
    assert_eq!(
        &diff.changes,
        &vec![change((5, 11), (5, 5), 5, (0, 5), (1, 5), (0, 5))]
    );
    assert_eq!(&diff.get_hunks(before, after), &vec![("\nworld", "")]);
}

#[test]
fn test_diff_reference() {
    let before = r#"fn foo() -> Bar {
    let mut foo = 2;
    foo *= 50;
    println!("hello world")
}"#;

    let after = r#"// lorem ipsum
fn foo() -> Bar {
    let mut foo = 2;
    foo *= 50;
    println!("hello world");
    println!("{foo}");
}
// foo
"#;

    let diff = compute_diff(before, after);
    println!("{:#?}", diff);
    assert_eq!(
        &diff.changes,
        &vec![
            change((0, 0), (0, 15), 0, (0, 0), (0, 0), (1, 0)),
            change((81, 81), (96, 120), 96, (4, 27), (4, 27), (5, 22)),
            change((83, 83), (122, 130), 123, (6, 1), (6, 1), (8, 0)),
        ]
    );
    assert_eq!(
        &diff.get_hunks(before, after),
        &vec![
            ("", "// lorem ipsum\n"),
            ("", ";\n    println!(\"{foo}\");"),
            ("", "\n// foo\n"),
        ]
    );
}

#[test]
fn test_diff_no_change() {
    let diff = compute_diff("same text", "same text");
    assert_eq!(diff.changes.len(), 0);
}
