use tiny_shell::ast::{AstNode, RedirectKind};
use tiny_shell::builtins::is_builtin_command;
use tiny_shell::executor::{flatten, next_pc, Step};
use tiny_shell::lexer::tokenize;
use tiny_shell::parser::DefaultParser;

fn parse(line: &str) -> AstNode {
    let toks = tokenize(line).unwrap();
    DefaultParser::new(&toks).parse().unwrap()
}

/// Runs the plan of `line`, with `false` failing and every other command succeeding;
/// returns the commands run (name and arguments joined by spaces) and the final status.
fn run(line: &str) -> (Vec<String>, i32) {
    let plan = flatten(&parse(line));
    let mut log = Vec::new();
    let mut status = 0;
    let mut pc = 0;
    while pc < plan.len() {
        match &plan[pc] {
            Step::Run(c) => {
                let mut words = vec![c.name.clone()];
                words.extend(c.args.iter().cloned());
                log.push(words.join(" "));
                status = if c.name == "false" { 1 } else { 0 };
            }
            Step::Pipeline(stages) => {
                log.push(format!("pipeline of {}", stages.len()));
                status = 0;
            }
            Step::Subshell(_) => {
                log.push("subshell".to_string());
                status = 0;
            }
            _ => {}
        }
        pc = next_pc(&plan, pc, status);
    }
    (log, status)
}

#[test]
fn echo_hello_runs_once() {
    assert_eq!(run("echo hello"), (vec!["echo hello".to_string()], 0));
}

#[test]
fn false_and_skips_then_sequence_continues() {
    assert_eq!(run("false && echo skipped; echo next"), (vec!["false".to_string(), "echo next".to_string()], 0));
}

#[test]
fn false_or_recovers() {
    assert_eq!(run("false || echo recovered"), (vec!["false".to_string(), "echo recovered".to_string()], 0));
}

#[test]
fn and_returns_left_status_on_failure() {
    assert_eq!(run("false && echo x"), (vec!["false".to_string()], 1));
}

#[test]
fn or_skips_right_on_success() {
    assert_eq!(run("true || echo x"), (vec!["true".to_string()], 0));
}

#[test]
fn quoted_arguments_keep_spaces() {
    assert_eq!(run("echo 'a b' \"c d\""), (vec!["echo a b c d".to_string()], 0));
    match parse("echo 'a b' \"c d\"") {
        AstNode::Command(c) => assert_eq!(c.args, vec!["a b".to_string(), "c d".to_string()]),
        other => panic!("unexpected tree {:?}", other),
    }
}

#[test]
fn pipeline_output_redirect_wraps_pipeline() {
    let plan = flatten(&parse("ls | wc -l > /tmp/out"));
    assert_eq!(plan.len(), 3);
    assert_eq!(plan[0], Step::BeginRedirect { kind: RedirectKind::Out, file: "/tmp/out".to_string() });
    assert!(matches!(&plan[1], Step::Pipeline(stages) if stages.len() == 2));
    assert_eq!(plan[2], Step::EndRedirect { kind: RedirectKind::Out });
}

#[test]
fn three_stage_pipeline_with_input_and_output() {
    let plan = flatten(&parse("cat < /tmp/in | grep foo | wc -l > /tmp/out"));
    assert_eq!(plan.len(), 3);
    match &plan[1] {
        Step::Pipeline(stages) => {
            assert_eq!(stages.len(), 3);
            assert!(matches!(&stages[0], AstNode::Redirect { kind: RedirectKind::In, .. }));
        }
        other => panic!("unexpected step {:?}", other),
    }
}

#[test]
fn subshell_is_one_step_then_parent_runs() {
    let (log, status) = run("(cd /tmp; pwd); pwd");
    assert_eq!(log, vec!["subshell".to_string(), "pwd".to_string()]);
    assert_eq!(status, 0);
}

#[test]
fn unknown_command_is_not_builtin() {
    assert!(!is_builtin_command("nosuchcmd"));
    assert!(is_builtin_command("cd"));
    assert!(is_builtin_command("history"));
}

#[test]
fn stacked_redirections_open_innermost_first() {
    let plan = flatten(&parse("echo x > a > b"));
    assert_eq!(plan.len(), 5);
    assert_eq!(plan[0], Step::BeginRedirect { kind: RedirectKind::Out, file: "a".to_string() });
    assert_eq!(plan[1], Step::BeginRedirect { kind: RedirectKind::Out, file: "b".to_string() });
    assert!(matches!(&plan[2], Step::Run(_)));
    assert_eq!(plan[3], Step::EndRedirect { kind: RedirectKind::Out });
    assert_eq!(plan[4], Step::EndRedirect { kind: RedirectKind::Out });
}
