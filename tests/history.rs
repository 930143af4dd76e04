use tiny_shell::history::HistoryManager;

#[test]
fn add_twice_records_once() {
    let mut h = HistoryManager::new(10, None);
    h.add("ls");
    h.add("ls");
    assert_eq!(h.len(), 1);
    assert_eq!(h.last(), Some("ls"));
}

#[test]
fn blank_lines_are_not_recorded_and_lines_are_trimmed() {
    let mut h = HistoryManager::new(10, None);
    h.add("   ");
    h.add("");
    h.add("  echo hi \n");
    assert_eq!(h.list(), &["echo hi".to_string()][..]);
}

#[test]
fn bound_drops_oldest() {
    let mut h = HistoryManager::new(2, None);
    h.add("a");
    h.add("b");
    h.add("c");
    assert_eq!(h.list(), &["b".to_string(), "c".to_string()][..]);
    assert_eq!(h.get(0), Some("b"));
    assert_eq!(h.get(2), None);
}

#[test]
fn zero_bound_keeps_nothing() {
    let mut h = HistoryManager::new(0, None);
    h.add("a");
    assert_eq!(h.len(), 0);
}

#[test]
fn from_lines_skips_blank_and_keeps_newest() {
    let lines = vec!["a".to_string(), " ".to_string(), "b".to_string(), "c".to_string()];
    let h = HistoryManager::from_lines(lines, 2, Some("/tmp/h".to_string()));
    assert_eq!(h.list(), &["b".to_string(), "c".to_string()][..]);
    assert_eq!(h.file_path(), &Some("/tmp/h".to_string()));
}

#[test]
fn file_text_one_entry_per_line() {
    let mut h = HistoryManager::new(5, None);
    h.add("ls");
    h.add("pwd");
    assert_eq!(h.to_text(), "ls\npwd\n");
    h.clear();
    assert_eq!(h.to_text(), "");
}
