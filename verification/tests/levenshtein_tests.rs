use puddlejumper::levenshtein::levenshtein;

#[test]
fn test_levenshtein() {
    let a = "kitten";
    let b = "sitting";
    assert_eq!(levenshtein(a, b), 3);
}

#[test]
fn test_levenshtein_empty() {
    assert_eq!(levenshtein("", ""), 0);
    assert_eq!(levenshtein("", "abc"), 3);
    assert_eq!(levenshtein("abc", ""), 3);
}

#[test]
fn test_levenshtein_equal() {
    assert_eq!(levenshtein("world", "world"), 0);
}

#[test]
fn test_levenshtein_substitution() {
    assert_eq!(levenshtein("world", "warld"), 1);
}
