use tiny_shell::ast::{AstNode, CommandKind, CommandNode, RedirectKind};
use tiny_shell::environment::Environment;
use tiny_shell::executor::{
    flatten, next_pc, path_candidates, pipeline_actions, stage_wiring, wait_status, ExecOutcome, ExecStatus, Executor,
    PipeAction, Step, StageWiring,
};

struct TestExecutor {
    pub log: Vec<String>,
}

fn status_of(r: ExecStatus) -> Result<i32, ()> {
    match r {
        Ok(ExecOutcome::Code(c)) => Ok(c),
        Ok(ExecOutcome::Exit(c)) => Ok(c),
        Err(_) => Err(()),
    }
}

impl Executor for TestExecutor {
    fn exec(&mut self, node: &AstNode, env: &mut Environment) -> ExecStatus {
        match node {
            AstNode::Command(cmd) => {
                self.log.push(format!("command: {} {:?}", cmd.name, cmd.args));
                Ok(ExecOutcome::Code(if cmd.name == "false" { 1 } else { 0 }))
            }
            AstNode::Pipeline(nodes) => {
                self.log.push("pipeline".to_string());
                for node in nodes {
                    self.exec(node, env)?;
                }
                Ok(ExecOutcome::Code(0))
            }
            AstNode::Redirect { node, kind, file } => {
                self.log.push(format!("redirect: {:?} {}", kind, file));
                self.exec(node, env)
            }
            AstNode::Subshell(sub) => {
                self.log.push("subshell".to_string());
                let mut copy = env.clone();
                self.exec(sub, &mut copy)
            }
            AstNode::Sequence(seq) => {
                self.log.push("sequence".to_string());
                let mut last = Ok(ExecOutcome::Code(0));
                for node in seq {
                    last = self.exec(node, env);
                    if last.is_err() {
                        return last;
                    }
                }
                last
            }
            AstNode::And(lhs, rhs) => {
                self.log.push("and".to_string());
                let l = status_of(self.exec(lhs, env)).unwrap();
                if l == 0 {
                    self.exec(rhs, env)
                } else {
                    Ok(ExecOutcome::Code(l))
                }
            }
            AstNode::Or(lhs, rhs) => {
                self.log.push("or".to_string());
                if status_of(self.exec(lhs, env)).unwrap() != 0 {
                    self.exec(rhs, env)
                } else {
                    Ok(ExecOutcome::Code(0))
                }
            }
        }
    }
}

impl TestExecutor {
    fn new() -> Self {
        Self { log: vec![] }
    }
}

fn dummy_cmd(name: &str, args: &[&str]) -> AstNode {
    AstNode::Command(CommandNode {
        name: name.to_string(),
        args: args.iter().map(|s| s.to_string()).collect(),
        kind: CommandKind::Simple,
    })
}

#[test]
fn executor_test_simple_command() {
    let ast = dummy_cmd("echo", &["hello"]);
    let mut env = Environment::empty();
    let mut exec = TestExecutor::new();
    let result = exec.exec(&ast, &mut env);
    assert!(matches!(result, Ok(ExecOutcome::Code(0))));
    assert_eq!(exec.log, vec!["command: echo [\"hello\"]"]);
}

#[test]
fn executor_test_pipeline() {
    let ast = AstNode::Pipeline(vec![dummy_cmd("ls", &[]), dummy_cmd("wc", &[])]);
    let mut env = Environment::empty();
    let mut exec = TestExecutor::new();
    let result = exec.exec(&ast, &mut env);
    assert!(matches!(result, Ok(ExecOutcome::Code(0))));
    assert_eq!(exec.log, vec!["pipeline", "command: ls []", "command: wc []"]);
}

#[test]
fn test_redirect() {
    let ast = AstNode::Redirect {
        node: Box::new(dummy_cmd("ls", &[])),
        kind: RedirectKind::Out,
        file: "out.txt".to_string(),
    };
    let mut env = Environment::empty();
    let mut exec = TestExecutor::new();
    let result = exec.exec(&ast, &mut env);
    assert!(matches!(result, Ok(ExecOutcome::Code(0))));
    assert_eq!(exec.log, vec!["redirect: Out out.txt", "command: ls []"]);
}

#[test]
fn executor_test_subshell() {
    let ast = AstNode::Subshell(Box::new(dummy_cmd("ls", &[])));
    let mut env = Environment::empty();
    let mut exec = TestExecutor::new();
    let result = exec.exec(&ast, &mut env);
    assert!(matches!(result, Ok(ExecOutcome::Code(0))));
    assert_eq!(exec.log, vec!["subshell", "command: ls []"]);
}

#[test]
fn test_complex_pipeline_with_redirect_and_subshell() {
    let ast = AstNode::Redirect {
        node: Box::new(AstNode::Subshell(Box::new(AstNode::Pipeline(vec![
            dummy_cmd("ls", &[]),
            dummy_cmd("grep", &["foo"]),
        ])))),
        kind: RedirectKind::Out,
        file: "out.txt".to_string(),
    };
    let mut env = Environment::empty();
    let mut exec = TestExecutor::new();
    let result = exec.exec(&ast, &mut env);
    assert!(matches!(result, Ok(ExecOutcome::Code(0))));
    assert_eq!(
        exec.log,
        vec!["redirect: Out out.txt", "subshell", "pipeline", "command: ls []", "command: grep [\"foo\"]"]
    );
}

#[test]
fn test_sequence_and_and_or() {
    let ast = AstNode::Sequence(vec![
        AstNode::Or(
            Box::new(AstNode::And(Box::new(dummy_cmd("echo", &["hi"])), Box::new(dummy_cmd("false", &[])))),
            Box::new(dummy_cmd("echo", &["fallback"])),
        ),
        dummy_cmd("echo", &["done"]),
    ]);
    let mut env = Environment::empty();
    let mut exec = TestExecutor::new();
    let result = exec.exec(&ast, &mut env);
    assert!(matches!(result, Ok(ExecOutcome::Code(0))));
    assert_eq!(
        exec.log,
        vec![
            "sequence",
            "or",
            "and",
            "command: echo [\"hi\"]",
            "command: false []",
            "command: echo [\"fallback\"]",
            "command: echo [\"done\"]"
        ]
    );
}

#[test]
fn flatten_and_places_jump_after_right_operand() {
    let ast = AstNode::And(Box::new(dummy_cmd("a", &[])), Box::new(dummy_cmd("b", &[])));
    let plan = flatten(&ast);
    assert_eq!(plan.len(), 3);
    assert_eq!(plan[1], Step::JumpIfNonZero(3));
    assert_eq!(next_pc(&plan, 1, 1), 3);
    assert_eq!(next_pc(&plan, 1, 0), 2);
}

#[test]
fn flatten_redirect_brackets_inner_steps() {
    let ast = AstNode::Redirect { node: Box::new(dummy_cmd("ls", &[])), kind: RedirectKind::Append, file: "f".to_string() };
    let plan = flatten(&ast);
    assert_eq!(plan[0], Step::BeginRedirect { kind: RedirectKind::Append, file: "f".to_string() });
    assert_eq!(plan[2], Step::EndRedirect { kind: RedirectKind::Append });
}

#[test]
fn wiring_of_three_stages() {
    assert_eq!(stage_wiring(3, 0), StageWiring { stdin_pipe: None, stdout_pipe: Some(0) });
    assert_eq!(stage_wiring(3, 1), StageWiring { stdin_pipe: Some(0), stdout_pipe: Some(1) });
    assert_eq!(stage_wiring(3, 2), StageWiring { stdin_pipe: Some(1), stdout_pipe: None });
}

#[test]
fn parent_closes_every_pipe_end_once() {
    let n = 4;
    let mut closed: Vec<(usize, bool)> = Vec::new();
    for a in pipeline_actions(n) {
        if let PipeAction::Close { pipe, read_end } = a {
            closed.push((pipe, read_end));
        }
    }
    closed.sort();
    let mut expected = Vec::new();
    for k in 0..n - 1 {
        expected.push((k, false));
        expected.push((k, true));
    }
    expected.sort();
    assert_eq!(closed, expected);
}

#[test]
fn wait_status_for_signal() {
    assert_eq!(wait_status(false, 0, 9), 137);
    assert_eq!(wait_status(true, 3, 0), 3);
}

#[test]
fn path_candidates_follow_path_order() {
    assert_eq!(path_candidates("ls", Some("/usr/bin::/bin")), vec!["/usr/bin/ls".to_string(), "/bin/ls".to_string()]);
    assert_eq!(path_candidates("./run", Some("/bin")), vec!["./run".to_string()]);
    assert!(path_candidates("ls", None).is_empty());
    assert!(path_candidates("ls", Some("")).is_empty());
}

#[test]
fn pipeline_actions_spawn_close_then_wait() {
    let acts = pipeline_actions(3);
    let expected = vec![
        PipeAction::Spawn { stage: 0, wiring: StageWiring { stdin_pipe: None, stdout_pipe: Some(0) } },
        PipeAction::Close { pipe: 0, read_end: false },
        PipeAction::Spawn { stage: 1, wiring: StageWiring { stdin_pipe: Some(0), stdout_pipe: Some(1) } },
        PipeAction::Close { pipe: 0, read_end: true },
        PipeAction::Close { pipe: 1, read_end: false },
        PipeAction::Spawn { stage: 2, wiring: StageWiring { stdin_pipe: Some(1), stdout_pipe: None } },
        PipeAction::Close { pipe: 1, read_end: true },
        PipeAction::Wait { stage: 0 },
        PipeAction::Wait { stage: 1 },
        PipeAction::Wait { stage: 2 },
    ];
    assert_eq!(acts, expected);
}

#[test]
fn not_found_message_and_history_path() {
    let (status, msg) = tiny_shell::executor::command_not_found("nosuchcmd");
    assert_eq!(status, 127);
    assert!(msg.contains("command not found"));
    assert_eq!(tiny_shell::executor::history_path("~/.h", Some("/home/u")), "/home/u/.h");
    assert_eq!(tiny_shell::executor::history_path("~/.h", None), "~/.h");
    assert_eq!(tiny_shell::executor::target_fd(RedirectKind::Append), 1);
}

#[test]
fn pipeline_status_is_last_stage() {
    let acts = pipeline_actions(3);
    assert_eq!(tiny_shell::executor::pipeline_status(&acts, &vec![1, 2, 0]), 0);
    assert_eq!(tiny_shell::executor::pipeline_status(&acts, &vec![0, 0, 5]), 5);
}
