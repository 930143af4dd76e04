use tiny_shell::config::{ConfigError, ConfigLoader, ExecutorType};

#[test]
fn defaults() {
    let c = ConfigLoader::default_config();
    assert_eq!(c.prompt, "$ ");
    assert_eq!(c.history_file, "~/.tiny_shell_history");
    assert_eq!(c.history_max, 500);
    assert_eq!(c.executor_type, ExecutorType::Flatten);
}

#[test]
fn full_file() {
    let src = "# comment\n\nprompt=>> \nhistory_max=20\nexecutor_type=recursive\nalias.ll=ls -l\nenv.EDITOR=vi\nhistory_file=/tmp/h\n";
    let c = ConfigLoader::load_from_str(src).unwrap();
    assert_eq!(c.prompt, ">> ");
    assert_eq!(c.history_max, 20);
    assert_eq!(c.executor_type, ExecutorType::Recursive);
    assert_eq!(c.aliases, vec![("ll".to_string(), "ls -l".to_string())]);
    assert_eq!(c.env_vars, vec![("EDITOR".to_string(), "vi".to_string())]);
    assert_eq!(c.history_file, "/tmp/h");
}

#[test]
fn value_keeps_leading_space_and_later_equals() {
    let c = ConfigLoader::load_from_str("prompt= a=b").unwrap();
    assert_eq!(c.prompt, " a=b");
}

#[test]
fn unknown_key_fails_with_line_number() {
    assert_eq!(
        ConfigLoader::load_from_str("prompt=x\ncolour=red\n"),
        Err(ConfigError::Parse(2, "colour=red".to_string()))
    );
}

#[test]
fn invalid_integer_fails() {
    assert_eq!(
        ConfigLoader::load_from_str("history_max=ten"),
        Err(ConfigError::Parse(1, "history_max=ten".to_string()))
    );
    assert_eq!(
        ConfigLoader::load_from_str("history_max=99999999999999999999999"),
        Err(ConfigError::Parse(1, "history_max=99999999999999999999999".to_string()))
    );
}

#[test]
fn line_without_equals_fails() {
    assert_eq!(ConfigLoader::load_from_str("\nprompt\n"), Err(ConfigError::Parse(2, "prompt".to_string())));
}

#[test]
fn crlf_lines() {
    let c = ConfigLoader::load_from_str("history_max=7\r\n").unwrap();
    assert_eq!(c.history_max, 7);
}

#[test]
fn later_alias_replaces_earlier() {
    let c = ConfigLoader::load_from_str("alias.ll=ls -l\nalias.la=ls -a\nalias.ll=ls -lh\n").unwrap();
    assert_eq!(c.aliases, vec![("ll".to_string(), "ls -lh".to_string()), ("la".to_string(), "ls -a".to_string())]);
}
