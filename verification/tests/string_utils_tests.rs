use visit_recorder::string_utils::{grep_internal, grep_internal_2, split_lines, str_contains};

#[test]
fn split_lines_handles_endings() {
    assert_eq!(split_lines("a\nb\r\nc\n"), vec!["a", "b", "c"]);
    assert_eq!(split_lines(""), Vec::<String>::new());
    assert_eq!(split_lines("\n"), vec![""]);
    assert_eq!(split_lines("one line"), vec!["one line"]);
    assert_eq!(split_lines("a\n\nb"), vec!["a", "", "b"]);
    assert_eq!(split_lines("a\r\nb"), vec!["a", "b"]);
    // A carriage return not followed by a newline is no line ending.
    assert_eq!(split_lines("tail\r"), vec!["tail\r"]);
}

#[test]
fn str_contains_finds_substrings() {
    assert!(str_contains("I'm good.", "good"));
    assert!(!str_contains("I'm good.", "great"));
    assert!(str_contains("anything", ""));
    assert!(str_contains("", ""));
    assert!(!str_contains("", "a"));
    assert!(str_contains("aaab", "aab"));
}

#[test]
fn grep_returns_matching_lines() {
    let text = "I'm good. I'm great. I'm doing good.";
    let result = grep_internal("good", text);
    assert_eq!(result, "I'm good. I'm great. I'm doing good.\n");
}

#[test]
fn grep_keeps_only_lines_with_the_pattern() {
    let text = "alpha\nbeta\ngamma\nbetamax";
    let result = grep_internal("beta", text);
    assert_eq!(result, "beta\nbetamax\n");
    assert_eq!(grep_internal("delta", text), "");
}

#[test]
fn grep_with_context_returns_windows() {
    let text = "zero\none\ntwo\nthree\nfour\nfive";
    let ctx = grep_internal_2("three", text);
    assert_eq!(ctx.len(), 1);
    assert_eq!(
        ctx[0],
        vec![
            (1, "one".to_string()),
            (2, "two".to_string()),
            (3, "three".to_string()),
            (4, "four".to_string()),
            (5, "five".to_string()),
        ]
    );
}

#[test]
fn grep_with_context_clips_at_the_edges() {
    let text = "zero\none\ntwo\nthree";
    let ctx = grep_internal_2("zero", text);
    assert_eq!(ctx.len(), 1);
    assert_eq!(
        ctx[0],
        vec![
            (0, "zero".to_string()),
            (1, "one".to_string()),
            (2, "two".to_string()),
        ]
    );
    let none = grep_internal_2("missing", text);
    assert!(none.is_empty());
}

#[test]
fn grep_with_context_returns_one_window_per_match() {
    let text = "a\nb\nmatch\nc\nd\ne\nf\nmatch\ng";
    let ctx = grep_internal_2("match", text);
    assert_eq!(ctx.len(), 2);
    assert_eq!(ctx[0].len(), 5);
    assert_eq!(ctx[0][0], (0, "a".to_string()));
    assert_eq!(ctx[0][4], (4, "d".to_string()));
    assert_eq!(ctx[1].len(), 4);
    assert_eq!(ctx[1][0], (5, "e".to_string()));
    assert_eq!(ctx[1][3], (8, "g".to_string()));
}
