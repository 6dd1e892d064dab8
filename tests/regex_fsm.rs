use tcp_rust::regex::{FsmColumn, Regex, FSM_COLUMN_SIZE};

#[test]
fn star_then_literals() {
    let regex = Regex::compile("a*bc");
    let cases = [
        ("Hello, world", false),
        ("bc", true),
        ("abc", true),
        ("aabc", true),
        ("aaabc", true),
        ("bbc", false),
        ("cbc", false),
        ("cbd", false),
        ("cbt", false),
        ("abcd", true),
    ];
    for (input, expected) in cases.iter() {
        assert_eq!(regex.match_str(input), *expected, "input {:?}", input);
    }
}

#[test]
fn line_end_anchors() {
    let regex = Regex::compile("a*bc$");
    assert!(regex.match_str("abc"));
    assert!(!regex.match_str("abcd"));
}

#[test]
fn plus_and_dot() {
    let plus = Regex::compile("a+b");
    assert!(!plus.match_str("b"));
    assert!(plus.match_str("ab"));
    assert!(plus.match_str("aaab"));
    let dot = Regex::compile(".c");
    assert!(dot.match_str("xc"));
    assert!(!dot.match_str("\u{1}c"));
}

#[test]
fn fresh_column_rejects_everything() {
    let col = FsmColumn::new();
    assert_eq!(col.ts.len(), FSM_COLUMN_SIZE);
    assert!(col.ts.iter().all(|t| t.next == 0 && t.offset == 0));
}
