use tiny_shell::ast::{AstNode, CommandKind, CommandNode, RedirectKind};
use tiny_shell::environment::Environment;
use tiny_shell::expander::{ExpandError, Expander};

fn setup_env() -> Environment {
    let mut env = Environment::from_vars(vec![("HOME".to_string(), "/home/u".to_string())]);
    env.set("USER", "user");
    env.set("EMPTY", "");
    env
}

#[test]
fn test_variable_substitution_simple() {
    let env = setup_env();
    let expander = Expander::new(&env);
    assert_eq!(expander.expand_arg("Hello $USER").unwrap(), vec!["Hello user"]);
}

#[test]
fn test_variable_substitution_braced() {
    let env = setup_env();
    let expander = Expander::new(&env);
    assert_eq!(expander.expand_arg("Home: ${USER}land").unwrap(), vec!["Home: userland"]);
}

#[test]
fn test_variable_substitution_missing() {
    let env = setup_env();
    let expander = Expander::new(&env);
    assert_eq!(expander.expand_arg("Unset: $NOTFOUND").unwrap(), vec!["Unset: "]);
}

#[test]
fn escaped_characters_drop_backslash() {
    let env = setup_env();
    let expander = Expander::new(&env);
    assert_eq!(expander.expand_arg("Line\\nBreak\\$USER").unwrap(), vec!["LinenBreak$USER"]);
}

#[test]
fn test_heredoc_quoted_no_expansion() {
    let env = setup_env();
    let expander = Expander::new(&env);
    let input = "Path: $USER\nToday: $(echo Sun)";
    assert_eq!(expander.expand_heredoc(input, true).unwrap(), input);
}

#[test]
fn heredoc_unquoted_substitutes_variables() {
    let env = setup_env();
    let expander = Expander::new(&env);
    assert_eq!(expander.expand_heredoc("Path: $USER", false).unwrap(), "Path: user");
}

#[test]
fn test_glob_no_match_returns_literal() {
    let env = setup_env();
    let expander = Expander::new(&env);
    assert_eq!(expander.expand_arg("no_such_file_*.xyz").unwrap(), vec!["no_such_file_*.xyz"]);
}

#[test]
fn test_empty_variable() {
    let env = setup_env();
    let expander = Expander::new(&env);
    assert_eq!(expander.expand_arg("[$EMPTY]").unwrap(), vec!["[]"]);
}

#[test]
fn test_tilde_expand_home() {
    let env = setup_env();
    let expander = Expander::new(&env);
    assert_eq!(expander.expand_word("~").unwrap(), "/home/u");
    assert_eq!(expander.expand_word("~/foo/bar").unwrap(), "/home/u/foo/bar");
    assert_eq!(expander.expand_word("~user").unwrap(), "~user");
}

#[test]
fn tilde_without_home_fails() {
    let env = Environment::empty();
    let expander = Expander::new(&env);
    assert!(matches!(expander.expand_word("~/x"), Err(ExpandError::TildeExpandFailed(_))));
}

#[test]
fn dollar_without_name_stays() {
    let env = setup_env();
    let expander = Expander::new(&env);
    assert_eq!(expander.substitute_vars("cost $5 $"), "cost $5 $");
}

#[test]
fn expand_tree_words_and_files() {
    let env = setup_env();
    let expander = Expander::new(&env);
    let tree = AstNode::Redirect {
        node: Box::new(AstNode::Command(CommandNode {
            name: "echo".to_string(),
            args: vec!["$USER".to_string(), "${HOME}".to_string()],
            kind: CommandKind::Simple,
        })),
        kind: RedirectKind::Out,
        file: "~/out".to_string(),
    };
    let expected = AstNode::Redirect {
        node: Box::new(AstNode::Command(CommandNode {
            name: "echo".to_string(),
            args: vec!["user".to_string(), "/home/u".to_string()],
            kind: CommandKind::Simple,
        })),
        kind: RedirectKind::Out,
        file: "/home/u/out".to_string(),
    };
    assert_eq!(expander.expand(&tree).unwrap(), expected);
}

#[test]
fn tilde_without_home_fails_the_tree() {
    let env = Environment::empty();
    let expander = Expander::new(&env);
    let tree = AstNode::Command(CommandNode {
        name: "ls".to_string(),
        args: vec!["~/x".to_string()],
        kind: CommandKind::Simple,
    });
    assert!(matches!(expander.expand(&tree), Err(ExpandError::TildeExpandFailed(_))));
}
