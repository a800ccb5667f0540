use shell::history::{decode_line, escape_entry, parse_history, serialize_history};

fn strings(v: &[&str]) -> Vec<String> {
    v.iter().map(|s| s.to_string()).collect()
}

#[test]
fn empty_file_has_no_entries() {
    assert!(parse_history("").is_empty());
}

#[test]
fn lines_are_entries() {
    assert_eq!(parse_history("ls\ncd /tmp\n"), strings(&["ls", "cd /tmp"]));
    assert_eq!(parse_history("ls\necho hi"), strings(&["ls", "echo hi"]));
    assert_eq!(parse_history("a\n\nb\n"), strings(&["a", "b"]));
}

#[test]
fn old_files_are_read_as_they_stand() {
    assert_eq!(parse_history("echo a\\nb\n"), strings(&["echo a\\nb"]));
}

#[test]
fn entries_are_written_after_the_version_line() {
    assert_eq!(serialize_history(&strings(&["ls", "pwd"])), "#V2\nls\npwd\n");
    assert_eq!(serialize_history(&Vec::new()), "#V2\n");
}

#[test]
fn newlines_and_backslashes_are_escaped() {
    assert_eq!(escape_entry("a\nb"), "a\\nb");
    assert_eq!(escape_entry("c:\\x"), "c:\\\\x");
    assert_eq!(decode_line("a\\nb"), "a\nb");
    assert_eq!(decode_line("c:\\\\x"), "c:\\x");
    assert_eq!(decode_line("bad\\q"), "bad\\q");
    assert_eq!(decode_line("end\\"), "end\\");
    let entries = strings(&["echo 'a\nb'", "dir c:\\tmp", "#V2"]);
    let text = serialize_history(&entries);
    assert_eq!(text, "#V2\necho 'a\\nb'\ndir c:\\\\tmp\n#V2\n");
    assert_eq!(parse_history(&text), entries);
}

#[test]
fn history_survives_a_session() {
    let file = "echo one\necho two\n";
    let mut entries = parse_history(file);
    assert_eq!(entries.len(), 2);
    entries.push("ls -la".to_string());
    entries.push("exit".to_string());
    let written = serialize_history(&entries);
    assert_eq!(written, "#V2\necho one\necho two\nls -la\nexit\n");
    assert_eq!(
        parse_history(&written),
        strings(&["echo one", "echo two", "ls -la", "exit"])
    );
}

#[test]
fn leading_header_line_is_skipped() {
    assert_eq!(parse_history("#V2\nls\npwd\n"), strings(&["ls", "pwd"]));
    assert_eq!(parse_history("#V2\n"), Vec::<String>::new());
    assert_eq!(parse_history("ls\n#V2\n"), strings(&["ls", "#V2"]));
    assert_eq!(parse_history("#V2\n#V2\n"), strings(&["#V2"]));
}
