use tiny_shell::ast::{AstNode, CommandKind, CommandNode};
use tiny_shell::environment::Environment;
use tiny_shell::error::ShellError;
use tiny_shell::executor::ExecOutcome;
use tiny_shell::lexer::{tokenize, LexError};
use tiny_shell::parser::{DefaultParser, ParseError};
use tiny_shell::repl::{is_blank_line, keep_reading, prepare_line};
use tiny_shell::roundtrip::to_source;

fn cmd(name: &str, args: &[&str]) -> AstNode {
    AstNode::Command(CommandNode {
        name: name.to_string(),
        args: args.iter().map(|s| s.to_string()).collect(),
        kind: CommandKind::Simple,
    })
}

#[test]
fn prepare_reports_the_failing_stage() {
    let env = Environment::empty();
    assert_eq!(prepare_line("echo 'x", &env, vec![]), Err(ShellError::Lex(LexError::UnterminatedQuote('\'', 5))));
    assert_eq!(prepare_line("", &env, vec![]), Err(ShellError::Parse(ParseError::EmptyInput)));
    assert!(matches!(prepare_line("cd ~", &env, vec![]), Err(ShellError::Expand(_))));
}

#[test]
fn prepare_expands_words() {
    let env = Environment::from_vars(vec![("NAME".to_string(), "world".to_string())]);
    assert_eq!(prepare_line("echo \"hi $NAME\"", &env, vec![]).unwrap(), cmd("echo", &["hi world"]));
    assert_eq!(prepare_line("echo 'a b' \"c d\"", &env, vec![]).unwrap(), cmd("echo", &["a b", "c d"]));
}

#[test]
fn blank_lines_and_exit() {
    assert!(is_blank_line("  \t\n"));
    assert!(!is_blank_line(" ls "));
    assert!(keep_reading(ExecOutcome::Code(1)));
    assert!(!keep_reading(ExecOutcome::Exit(0)));
}

fn parse(src: &str) -> AstNode {
    let toks = tokenize(src).unwrap();
    DefaultParser::new(&toks).parse().unwrap()
}

#[test]
fn printed_trees_parse_back() {
    for src in [
        "echo hello",
        "ls | wc -l > /tmp/out",
        "cat < /tmp/in | grep foo | wc -l > /tmp/out",
        "false && echo skipped; echo next",
        "a || b && c",
        "(cd /tmp; pwd) && echo 'a b' \"c;d\" >> log",
        "x\\|y '' z",
        "cat < in | sort > out",
    ] {
        let ast = parse(src);
        assert_eq!(parse(&to_source(&ast)), ast, "{}", src);
    }
}

#[test]
fn printer_escapes_and_spaces_tokens() {
    assert_eq!(to_source(&parse("echo 'a b' '' x>>y")), "echo a\\ b '' x >> y ");
    assert_eq!(to_source(&parse("(a;b)|c")), "( a ; b ) | c ");
}

#[test]
fn quoted_and_escaped_text_is_not_expanded() {
    let env = Environment::from_vars(vec![("HOME".to_string(), "/home/u".to_string())]);
    assert_eq!(
        prepare_line("echo '$HOME' \\$HOME \"$HOME\" '~' \"\\$HOME\"", &env, vec![]).unwrap(),
        cmd("echo", &["$HOME", "$HOME", "/home/u", "~", "$HOME"])
    );
    let names = vec!["a.rs".to_string(), "b.rs".to_string()];
    assert_eq!(prepare_line("ls '*.rs' *.rs", &env, names).unwrap(), cmd("ls", &["*.rs", "a.rs", "b.rs"]));
}

#[test]
fn printed_escapes_round_trip() {
    for src in ["echo '$HOME' \\\\x \"a\\\\b\"", "ls '*' \\~"] {
        let ast = parse(src);
        assert_eq!(parse(&to_source(&ast)), ast, "{}", src);
    }
}
