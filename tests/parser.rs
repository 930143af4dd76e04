use tiny_shell::ast::{AstNode, CommandKind, CommandNode, RedirectKind};
use tiny_shell::lexer::{tokenize, Lexer};
use tiny_shell::parser::{DefaultParser, ParseError};
use tiny_shell::token::TokenKind;

fn lex_and_parse(src: &str) -> AstNode {
    let mut lexer = Lexer::new(src);
    let tokens = lexer.tokenize_all();
    let mut parser = match tokens {
        Ok(ref toks) => DefaultParser::new(toks),
        Err(ref e) => {
            println!("{:?}", e);
            panic!("Failed to tokenize input");
        }
    };
    parser.parse().unwrap()
}

fn try_parse(src: &str) -> Result<AstNode, ParseError> {
    let toks = tokenize(src).unwrap();
    let mut parser = DefaultParser::new(&toks);
    parser.parse()
}

fn cmd(name: &str, args: &[&str]) -> AstNode {
    AstNode::Command(CommandNode {
        name: name.to_string(),
        args: args.iter().map(|s| s.to_string()).collect(),
        kind: CommandKind::Simple,
    })
}

fn redirect(node: AstNode, kind: RedirectKind, file: &str) -> AstNode {
    AstNode::Redirect { node: Box::new(node), kind, file: file.to_string() }
}

#[test]
fn test_empty_input() {
    let mut lexer = Lexer::new("");
    let tokens = lexer.tokenize_all();
    let mut parser = match tokens {
        Ok(ref toks) => DefaultParser::new(toks),
        Err(ref e) => {
            println!("{:?}", e);
            panic!("Failed to tokenize input");
        }
    };
    assert!(matches!(parser.parse(), Err(ParseError::EmptyInput)));
}

#[test]
fn default_test_simple_command() {
    let ast = lex_and_parse("echo hello");
    assert_eq!(
        ast,
        AstNode::Command(CommandNode {
            name: "echo".to_string(),
            args: vec!["hello".to_string()],
            kind: CommandKind::Simple,
        })
    );
}

#[test]
fn default_test_command_with_args() {
    let ast = lex_and_parse("ls -l /tmp");
    assert_eq!(
        ast,
        AstNode::Command(CommandNode {
            name: "ls".to_string(),
            args: vec!["-l".to_string(), "/tmp".to_string()],
            kind: CommandKind::Simple,
        })
    );
}

#[test]
fn test_command_sequence() {
    let ast = lex_and_parse("ls; pwd");
    assert_eq!(ast, AstNode::Sequence(vec![cmd("ls", &[]), cmd("pwd", &[])]));
}

#[test]
fn test_and_or_operators() {
    let ast = lex_and_parse("true && false || true");
    assert_eq!(
        ast,
        AstNode::Or(
            Box::new(AstNode::And(Box::new(cmd("true", &[])), Box::new(cmd("false", &[])))),
            Box::new(cmd("true", &[]))
        )
    );
}

#[test]
fn default_test_pipeline() {
    let ast = lex_and_parse("ls | grep foo");
    assert_eq!(ast, AstNode::Pipeline(vec![cmd("ls", &[]), cmd("grep", &["foo"])]));
}

#[test]
fn test_redirection() {
    let ast = lex_and_parse("echo foo > out.txt");
    assert_eq!(ast, redirect(cmd("echo", &["foo"]), RedirectKind::Out, "out.txt"));
    let ast = lex_and_parse("cat < in.txt");
    assert_eq!(ast, redirect(cmd("cat", &[]), RedirectKind::In, "in.txt"));
}

#[test]
fn default_test_subshell() {
    let ast = lex_and_parse("(echo foo; ls)");
    assert_eq!(
        ast,
        AstNode::Subshell(Box::new(AstNode::Sequence(vec![cmd("echo", &["foo"]), cmd("ls", &[])])))
    );
}

#[test]
fn test_complex_subshell() {
    let ast = lex_and_parse("(ls | grep foo) && echo ok > result.txt");
    assert_eq!(
        ast,
        AstNode::And(
            Box::new(AstNode::Subshell(Box::new(AstNode::Pipeline(vec![
                cmd("ls", &[]),
                cmd("grep", &["foo"])
            ])))),
            Box::new(redirect(cmd("echo", &["ok"]), RedirectKind::Out, "result.txt"))
        )
    );
}

#[test]
fn test_multiple_redirections() {
    let ast = lex_and_parse("echo foo > out.txt < in.txt");
    assert_eq!(
        ast,
        redirect(redirect(cmd("echo", &["foo"]), RedirectKind::Out, "out.txt"), RedirectKind::In, "in.txt")
    );
}

#[test]
fn mod_test_simple_command() {
    let ast = lex_and_parse("echo hello");
    assert_eq!(ast, cmd("echo", &["hello"]));
}

#[test]
fn mod_test_command_with_args() {
    let ast = lex_and_parse("grep foo bar");
    assert_eq!(ast, cmd("grep", &["foo", "bar"]));
}

#[test]
fn mod_test_pipeline() {
    let ast = lex_and_parse("ls | wc");
    assert_eq!(ast, AstNode::Pipeline(vec![cmd("ls", &[]), cmd("wc", &[])]));
}

#[test]
fn test_multistage_pipeline() {
    let ast = lex_and_parse("ls | grep foo | wc");
    assert_eq!(ast, AstNode::Pipeline(vec![cmd("ls", &[]), cmd("grep", &["foo"]), cmd("wc", &[])]));
}

#[test]
fn test_redirect_out() {
    let ast = lex_and_parse("ls > out.txt");
    assert_eq!(ast, redirect(cmd("ls", &[]), RedirectKind::Out, "out.txt"));
}

#[test]
fn test_pipeline_with_redirect() {
    let ast = lex_and_parse("ls | wc > out.txt");
    assert_eq!(
        ast,
        redirect(AstNode::Pipeline(vec![cmd("ls", &[]), cmd("wc", &[])]), RedirectKind::Out, "out.txt")
    );
}

#[test]
fn test_and_or_sequence() {
    let ast = lex_and_parse("echo ok && ls || echo err; echo end");
    assert_eq!(
        ast,
        AstNode::Sequence(vec![
            AstNode::Or(
                Box::new(AstNode::And(Box::new(cmd("echo", &["ok"])), Box::new(cmd("ls", &[])))),
                Box::new(cmd("echo", &["err"]))
            ),
            cmd("echo", &["end"]),
        ])
    );
}

#[test]
fn mod_test_subshell() {
    let ast = lex_and_parse("(ls | wc)");
    assert_eq!(ast, AstNode::Subshell(Box::new(AstNode::Pipeline(vec![cmd("ls", &[]), cmd("wc", &[])]))));
}

#[test]
fn test_command_with_multiple_redirects() {
    let ast = lex_and_parse("cat < in.txt > out.txt");
    assert_eq!(
        ast,
        redirect(redirect(cmd("cat", &[]), RedirectKind::In, "in.txt"), RedirectKind::Out, "out.txt")
    );
}

#[test]
fn test_complex_oneliner() {
    let ast = lex_and_parse("cat | grep -q foo | wc < in.txt > out.txt");
    assert_eq!(
        ast,
        redirect(
            redirect(
                AstNode::Pipeline(vec![cmd("cat", &[]), cmd("grep", &["-q", "foo"]), cmd("wc", &[])]),
                RedirectKind::In,
                "in.txt"
            ),
            RedirectKind::Out,
            "out.txt"
        )
    );
}

#[test]
fn test_parse_error() {
    let tokens = Lexer::new("&& ls").tokenize_all();
    let mut parser = match tokens {
        Ok(ref toks) => DefaultParser::new(toks),
        Err(ref e) => {
            println!("{:?}", e);
            panic!("Failed to tokenize input");
        }
    };
    assert!(parser.parse().is_err());
}

#[test]
fn missing_operand_reports_the_token() {
    assert_eq!(
        try_parse("&& echo ok"),
        Err(ParseError::UnexpectedToken { found: TokenKind::And, expected: TokenKind::Word, pos: 0 })
    );
}

#[test]
fn redirect_needs_a_word() {
    assert_eq!(try_parse("echo >"), Err(ParseError::UnexpectedEof));
    assert_eq!(
        try_parse("echo > |"),
        Err(ParseError::UnexpectedToken { found: TokenKind::Pipe, expected: TokenKind::Word, pos: 2 })
    );
}

#[test]
fn missing_close_paren() {
    assert_eq!(try_parse("(echo foo"), Err(ParseError::UnmatchedParen { pos: 3 }));
}

#[test]
fn stray_close_paren() {
    assert_eq!(
        try_parse("ls )"),
        Err(ParseError::UnexpectedToken { found: TokenKind::RParen, expected: TokenKind::Eof, pos: 1 })
    );
}

#[test]
fn and_or_are_left_associative_with_equal_precedence() {
    assert_eq!(
        try_parse("a || b && c").unwrap(),
        AstNode::And(
            Box::new(AstNode::Or(Box::new(cmd("a", &[])), Box::new(cmd("b", &[])))),
            Box::new(cmd("c", &[]))
        )
    );
}

#[test]
fn stage_redirect_binds_to_stage() {
    assert_eq!(
        try_parse("cat < in | wc > out").unwrap(),
        redirect(
            AstNode::Pipeline(vec![redirect(cmd("cat", &[]), RedirectKind::In, "in"), cmd("wc", &[])]),
            RedirectKind::Out,
            "out"
        )
    );
}

#[test]
fn three_commands_in_one_sequence() {
    assert_eq!(
        try_parse("a; b; c").unwrap(),
        AstNode::Sequence(vec![cmd("a", &[]), cmd("b", &[]), cmd("c", &[])])
    );
}

#[test]
fn append_redirect_parses() {
    assert_eq!(try_parse("echo x >> log").unwrap(), redirect(cmd("echo", &["x"]), RedirectKind::Append, "log"));
}

#[test]
fn empty_command_name_is_rejected() {
    assert_eq!(try_parse("'' x"), Err(ParseError::EmptyCommandName { pos: 0 }));
    assert_eq!(try_parse("ls | \"\""), Err(ParseError::EmptyCommandName { pos: 2 }));
    assert_eq!(try_parse("echo '' x").unwrap(), cmd("echo", &["", "x"]));
}
