use tiny_shell::environment::Environment;

fn os_like_env() -> Environment {
    Environment::from_vars(vec![
        ("PATH".to_string(), "/usr/bin:/bin".to_string()),
        ("HOME".to_string(), "/home/u".to_string()),
    ])
}

#[test]
fn test_new_includes_os_env() {
    let env = os_like_env();
    assert!(!env.all().is_empty());
}

#[test]
fn test_set_and_get() {
    let mut env = os_like_env();
    env.set("FOO", "bar");
    assert_eq!(env.get("FOO"), Some("bar"));
}

#[test]
fn test_unset() {
    let mut env = os_like_env();
    env.set("FOO", "bar");
    env.unset("FOO");
    assert_eq!(env.get("FOO"), None);
}

#[test]
fn test_export() {
    let mut env = os_like_env();
    env.set("FOO", "bar");
    env.export("FOO");
    let exported = env.exported_vars();
    assert!(exported.iter().any(|(k, v)| k == "FOO" && v == "bar"));
}

#[test]
fn test_all_and_exported_vars() {
    let mut env = os_like_env();
    env.set("FOO", "bar");
    env.export("FOO");
    env.set("BAZ", "qux");
    let all = env.all();
    assert!(all.iter().any(|(k, v)| k == "FOO" && v == "bar"));
    assert!(all.iter().any(|(k, v)| k == "BAZ" && v == "qux"));
    let exported = env.exported_vars();
    assert!(exported.iter().any(|(k, v)| k == "FOO" && v == "bar"));
    assert!(!exported.iter().any(|(k, _)| k == "BAZ"));
}

#[test]
fn imported_variables_are_exported() {
    let env = os_like_env();
    assert!(env.exported_vars().iter().any(|(k, v)| k == "HOME" && v == "/home/u"));
}

#[test]
fn set_on_existing_keeps_export_flag() {
    let mut env = os_like_env();
    env.set("PATH", "/opt/bin");
    assert_eq!(env.get("PATH"), Some("/opt/bin"));
    assert!(env.exported_vars().iter().any(|(k, v)| k == "PATH" && v == "/opt/bin"));
}

#[test]
fn later_import_overrides_earlier() {
    let env = Environment::from_vars(vec![("A".to_string(), "1".to_string()), ("A".to_string(), "2".to_string())]);
    assert_eq!(env.get("A"), Some("2"));
    assert_eq!(env.all().len(), 1);
}

#[test]
fn export_of_unknown_name_changes_nothing() {
    let mut env = Environment::empty();
    env.export("NOPE");
    assert!(env.all().is_empty());
    assert_eq!(env.get("NOPE"), None);
}
