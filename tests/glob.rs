use tiny_shell::environment::Environment;
use tiny_shell::expander::Expander;
use tiny_shell::glob::{glob_expand, glob_matches};

fn names(v: &[&str]) -> Vec<String> {
    v.iter().map(|s| s.to_string()).collect()
}

#[test]
fn star_question_and_class() {
    assert!(glob_matches("*.rs", "main.rs"));
    assert!(!glob_matches("*.rs", "main.rc"));
    assert!(glob_matches("a?c", "abc"));
    assert!(!glob_matches("a?c", "ac"));
    assert!(glob_matches("[a-c]x", "bx"));
    assert!(!glob_matches("[!a-c]x", "bx"));
    assert!(glob_matches("[!a-c]x", "dx"));
    assert!(glob_matches("*", ""));
    assert!(glob_matches("[x", "[x"));
}

#[test]
fn expansion_keeps_order_and_falls_back_to_pattern() {
    let dir = names(&["a.rs", "b.txt", "c.rs"]);
    assert_eq!(glob_expand("*.rs", &dir), names(&["a.rs", "c.rs"]));
    assert_eq!(glob_expand("*.md", &dir), names(&["*.md"]));
    assert_eq!(glob_expand("plain", &dir), names(&["plain"]));
}

#[test]
fn glob_expansion_against_names() {
    let env = Environment::empty();
    let expander = Expander::with_names(&env, names(&["lib.rs", "main.rs", "notes.txt"]));
    let result = expander.expand_arg("*.rs").unwrap();
    assert!(result.iter().any(|s| s.ends_with(".rs")));
    assert_eq!(result.len(), 2);
}

#[test]
fn escaped_wildcards_match_themselves() {
    let dir = names(&["a*", "ab"]);
    assert_eq!(glob_expand("a\\*", &dir), names(&["a*"]));
    assert_eq!(glob_expand("z\\*", &dir), names(&["z*"]));
    assert!(!glob_matches("a\\*", "ab"));
}
