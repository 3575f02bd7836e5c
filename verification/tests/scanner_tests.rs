use aquamarine::scanner::{extract_directive_path, is_directive_token, nonempty, split_inclusive, tokenize_doc_str};
use aquamarine::text::{check_blank, join, replace, str_eq, trim_ws};

#[test]
fn temp_split_inclusive() {
    let src = "```";
    let out: Vec<String> = split_inclusive(src, "```");
    assert_eq!(&out, &["```"]);

    let src = "```abcd```";
    let out: Vec<String> = split_inclusive(src, "```");
    assert_eq!(&out, &["```", "abcd", "```"]);

    let src = "left```abcd```right";
    let out: Vec<String> = split_inclusive(src, "```");
    assert_eq!(&out, &["left", "```", "abcd", "```", "right"]);
}

#[test]
fn split_inclusive_plain_text() {
    let out: Vec<String> = split_inclusive("no fences here", "```");
    assert_eq!(&out, &["no fences here"]);

    let out: Vec<String> = split_inclusive("", "```");
    assert!(out.is_empty());
}

#[test]
fn tokenize_keeps_empty_words() {
    let out: Vec<String> = tokenize_doc_str("a  b");
    assert_eq!(&out, &["a", "", "b"]);

    let out: Vec<String> = tokenize_doc_str("```mermaid abcd```");
    assert_eq!(&out, &["```", "mermaid", "abcd", "```"]);

    let out: Vec<String> = tokenize_doc_str("");
    assert!(out.is_empty());
}

#[test]
fn nonempty_filters_empty() {
    assert_eq!(nonempty(""), None);
    assert_eq!(nonempty("x"), Some("x"));
}

#[test]
fn directive_token_recognition() {
    assert!(is_directive_token("include_mmd!(\"a.mmd\")"));
    assert!(is_directive_token("include_mmd!(b.mmd)"));
    assert!(!is_directive_token("```"));
    assert!(!is_directive_token("mermaid"));
    assert!(!is_directive_token("include_mm"));
}

#[test]
fn directive_path_extraction() {
    assert_eq!(extract_directive_path("include_mmd!(\"diagram_0.mmd\")"), "diagram_0.mmd");
    assert_eq!(extract_directive_path("include_mmd!(diagram_1.mmd)"), "diagram_1.mmd");
    assert_eq!(extract_directive_path("include_mmd!(\"dir/d.mmd\")"), "dir/d.mmd");
}

#[test]
fn replace_all_occurrences() {
    assert_eq!(replace("abcabc", "b", "XY"), "aXYcaXYc");
    assert_eq!(replace("{p} and {p}", "{p}", "v"), "v and v");
    assert_eq!(replace("aaa", "aa", "b"), "ba");
}

#[test]
fn join_with_separator() {
    let parts: Vec<String> = vec!["a".to_string(), "b".to_string(), "c".to_string()];
    assert_eq!(join(&parts, " "), "a b c");
    let one: Vec<String> = vec!["x".to_string()];
    assert_eq!(join(&one, "\n"), "x");
    let none: Vec<String> = Vec::new();
    assert_eq!(join(&none, " "), "");
}

#[test]
fn blank_and_trim() {
    assert!(check_blank("  \t "));
    assert!(check_blank(""));
    assert!(!check_blank(" x "));
    assert_eq!(trim_ws("  x y\t"), "x y");
    assert!(str_eq("abc", "abc"));
    assert!(!str_eq("abc", "abd"));
}
