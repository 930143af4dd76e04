use tiny_shell::builtins::{Builtin, cd_command, exit_command, export_command, help_command, history_command, BuiltinManager};
use tiny_shell::environment::Environment;
use tiny_shell::executor::{ExecError, ExecOutcome};
use tiny_shell::history::HistoryManager;

fn args(v: &[&str]) -> Vec<String> {
    v.iter().map(|s| s.to_string()).collect()
}

#[test]
fn manager_knows_defaults_and_registered() {
    let mut m = BuiltinManager::new();
    assert!(m.is_builtin("cd"));
    assert!(!m.is_builtin("history"));
    m.register("history".to_string(), Builtin::History);
    assert!(m.is_builtin("history"));
    assert!(!m.is_builtin("ls"));
}

#[test]
fn exit_codes() {
    assert_eq!(exit_command(&args(&[])).unwrap().outcome, ExecOutcome::Exit(0));
    assert_eq!(exit_command(&args(&["3"])).unwrap().outcome, ExecOutcome::Exit(3));
    assert!(matches!(exit_command(&args(&["x"])), Err(ExecError::InvalidArgument(_))));
    assert!(matches!(exit_command(&args(&["3000000000"])), Err(ExecError::InvalidArgument(_))));
}

#[test]
fn cd_targets() {
    let env = Environment::from_vars(vec![("HOME".to_string(), "/home/u".to_string())]);
    assert_eq!(cd_command(&args(&["/tmp"]), &env).chdir, Some("/tmp".to_string()));
    assert_eq!(cd_command(&args(&[]), &env).chdir, Some("/home/u".to_string()));
    let r = cd_command(&args(&[]), &Environment::empty());
    assert_eq!(r.outcome, ExecOutcome::Code(1));
    assert_eq!(r.chdir, None);
}

#[test]
fn export_sets_and_marks() {
    let mut env = Environment::empty();
    env.set("A", "1");
    let r = export_command(&args(&["A", "B=2"]), &mut env);
    assert_eq!(r.outcome, ExecOutcome::Code(0));
    let exported = env.exported_vars();
    assert!(exported.iter().any(|(k, v)| k == "A" && v == "1"));
    assert!(exported.iter().any(|(k, v)| k == "B" && v == "2"));
}

#[test]
fn help_lists_builtins() {
    let r = help_command();
    assert!(r.stdout.contains("cd [DIR]"));
    assert!(r.stdout.contains("history"));
}

#[test]
fn history_listing_and_clear() {
    let mut h = HistoryManager::new(10, None);
    h.add("ls");
    h.add("pwd");
    h.add("echo hi");
    let all = history_command(&args(&[]), &mut h).unwrap();
    assert_eq!(all.stdout, "   1  ls\n   2  pwd\n   3  echo hi\n");
    let last = history_command(&args(&["2"]), &mut h).unwrap();
    assert_eq!(last.stdout, "   2  pwd\n   3  echo hi\n");
    assert!(matches!(history_command(&args(&["-x"]), &mut h), Err(ExecError::Custom(_))));
    let cleared = history_command(&args(&["-c"]), &mut h).unwrap();
    assert_eq!(cleared.stdout, "history cleared.\n");
    assert_eq!(h.len(), 0);
}

#[test]
fn lookup_needs_registration() {
    let mut m = BuiltinManager::new();
    assert_eq!(m.lookup("exit"), Some(Builtin::Exit));
    assert_eq!(m.lookup("history"), None);
    m.register("history".to_string(), Builtin::History);
    assert_eq!(m.lookup("history"), Some(Builtin::History));
    m.register("frobnicate".to_string(), Builtin::Help);
    assert_eq!(m.lookup("frobnicate"), Some(Builtin::Help));
    assert!(m.is_builtin("frobnicate"));
    m.register("frobnicate".to_string(), Builtin::Exit);
    assert_eq!(m.lookup("frobnicate"), Some(Builtin::Exit));
}

#[test]
fn execute_runs_the_registered_builtin() {
    let mut m = BuiltinManager::new();
    let mut env = Environment::empty();
    let mut h = HistoryManager::new(10, None);
    m.register("bye".to_string(), Builtin::Exit);
    assert_eq!(m.execute("bye", &args(&["4"]), &mut env, &mut h).unwrap().outcome, ExecOutcome::Exit(4));
    assert!(matches!(m.execute("nope", &args(&[]), &mut env, &mut h), Err(ExecError::NoSuchBuiltin(n)) if n == "nope"));
    let r = m.execute("export", &args(&["A=1"]), &mut env, &mut h).unwrap();
    assert_eq!(r.outcome, ExecOutcome::Code(0));
    assert_eq!(env.get("A"), Some("1"));
}
