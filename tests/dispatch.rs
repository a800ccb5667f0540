use shell::dispatch::{
    choose_mode, file_script, inline_script, plan_run, prompt_template, rc_outcome,
    rc_source_line, Mode, Run, ScriptSource,
};
use shell::error::DriverError;

#[test]
fn default_template_when_unset() {
    assert_eq!(prompt_template(None), "{display_cwd}{git_branch}$ ");
}

#[test]
fn inherited_template_wins() {
    assert_eq!(prompt_template(Some("> ".to_string())), "> ");
}

#[test]
fn rc_file_is_sourced_unless_suppressed() {
    let rc = rc_source_line(false, "/home/ann/.shellrc", true).unwrap();
    assert_eq!(rc.text, "source '/home/ann/.shellrc'");
    assert_eq!(rc.filename.as_deref(), Some("/home/ann/.shellrc"));
    assert!(rc_source_line(true, "/home/ann/.shellrc", true).is_none());
    assert!(rc_source_line(false, "/home/ann/.shellrc", false).is_none());
}

#[test]
fn rc_failure_is_a_startup_failure() {
    assert!(matches!(rc_outcome(Ok(2)), Ok(2)));
    match rc_outcome(Err("bad".to_string())) {
        Err(e) => assert_eq!(e.message(), "Failed to source ~/.shellrc: bad"),
        Ok(_) => panic!("expected a failure"),
    }
}

#[test]
fn no_file_no_command_is_interactive() {
    assert!(matches!(choose_mode(None, None), Mode::Interactive));
}

#[test]
fn file_wins_over_command() {
    let m = choose_mode(Some("a.sh".to_string()), Some("echo".to_string()));
    assert!(matches!(m, Mode::Script(ScriptSource::File(ref p)) if p == "a.sh"));
    let m = choose_mode(None, Some("echo".to_string()));
    assert!(matches!(m, Mode::Script(ScriptSource::Inline(ref c)) if c == "echo"));
}

#[test]
fn missing_script_file_is_fatal() {
    let r = file_script("nope.sh".to_string(), Err("No such file or directory".to_string()));
    match r {
        Err(e) => {
            assert!(matches!(e, DriverError::ScriptRead(_)));
            assert_eq!(
                e.message(),
                "Failed to read script file: No such file or directory"
            );
        }
        Ok(_) => panic!("expected a failure"),
    }
}

#[test]
fn script_file_keeps_its_name() {
    let s = file_script("a.sh".to_string(), Ok("echo 1".to_string())).ok().unwrap();
    assert_eq!(s.text, "echo 1");
    assert_eq!(s.filename.as_deref(), Some("a.sh"));
    let s = inline_script("echo 2".to_string());
    assert_eq!(s.text, "echo 2");
    assert!(s.filename.is_none());
}

#[test]
fn debug_mode_only_inspects() {
    let s = inline_script("rm -rf x".to_string());
    assert!(matches!(plan_run(s, true), Run::Inspect(ref t) if t == "rm -rf x"));
    let s = inline_script("echo".to_string());
    assert!(matches!(plan_run(s, false), Run::Execute(_)));
}

#[test]
fn messages_without_cause() {
    assert_eq!(DriverError::NoHomeDirectory.message(), "Couldn't get home directory");
    assert_eq!(
        DriverError::HistoryWrite("disk full".to_string()).context(),
        "Failed to write the command history"
    );
}
