use shell::error::DriverError;
use shell::repl::{is_cd_command, is_exit_command, Action, InteractiveLoop, Phase, ReadOutcome};

#[test]
fn exit_is_recognised_in_any_case() {
    assert!(is_exit_command("exit"));
    assert!(is_exit_command("  EXIT \t"));
    assert!(is_exit_command("\u{a0}ExIt\n"));
    assert!(!is_exit_command("exit now"));
    assert!(!is_exit_command("exi"));
    assert!(!is_exit_command(""));
}

#[test]
fn a_line_is_run_and_kept() {
    let mut l = InteractiveLoop::new(vec!["old".to_string()], 0);
    assert!(matches!(l.start(), Action::Read));
    let step = l.on_read(ReadOutcome::Line("echo hi".to_string()));
    assert!(step.notice.is_none());
    assert!(matches!(step.action, Action::Execute(ref s) if s == "echo hi"));
    assert_eq!(l.phase, Phase::Dispatching);
    assert_eq!(l.history, vec!["old".to_string(), "echo hi".to_string()]);
    let step = l.on_executed(Ok(3)).ok().unwrap();
    assert!(matches!(step.action, Action::Read));
    assert_eq!(l.last_exit_code, 3);
    assert_eq!(l.phase, Phase::Reading);
}

#[test]
fn exit_ends_the_loop_whatever_the_code() {
    for code in [0, 1, 127] {
        let mut l = InteractiveLoop::new(Vec::new(), 0);
        l.on_read(ReadOutcome::Line(" Exit ".to_string()));
        let step = l.on_executed(Ok(code)).ok().unwrap();
        assert_eq!(step.notice.as_deref(), Some("Exiting..."));
        assert!(matches!(step.action, Action::Persist(ref h) if h == &vec![" Exit ".to_string()]));
        assert_eq!(l.phase, Phase::Terminated);
        assert_eq!(l.last_exit_code, code);
    }
}

#[test]
fn interrupt_reads_again() {
    let mut l = InteractiveLoop::new(Vec::new(), 0);
    for _ in 0..3 {
        let step = l.on_read(ReadOutcome::Interrupted);
        assert_eq!(step.notice.as_deref(), Some("CTRL-C"));
        assert!(matches!(step.action, Action::Read));
        assert_eq!(l.phase, Phase::Reading);
    }
}

#[test]
fn end_of_input_ends_the_loop() {
    let mut l = InteractiveLoop::new(vec!["a".to_string()], 0);
    l.on_read(ReadOutcome::Line("b".to_string()));
    l.on_executed(Ok(0)).ok().unwrap();
    let step = l.on_read(ReadOutcome::EndOfInput);
    assert_eq!(step.notice.as_deref(), Some("CTRL-D"));
    assert!(matches!(step.action, Action::Persist(ref h) if h == &vec!["a".to_string(), "b".to_string()]));
    assert_eq!(l.phase, Phase::Terminated);
}

#[test]
fn editor_failure_ends_the_loop() {
    let mut l = InteractiveLoop::new(Vec::new(), 0);
    let step = l.on_read(ReadOutcome::Failed("broken pipe".to_string()));
    assert_eq!(step.notice.as_deref(), Some("Error: broken pipe"));
    assert!(matches!(step.action, Action::Persist(_)));
    assert_eq!(l.phase, Phase::Terminated);
}

#[test]
fn interpreter_failure_is_fatal() {
    let mut l = InteractiveLoop::new(Vec::new(), 5);
    l.on_read(ReadOutcome::Line("ls".to_string()));
    let r = l.on_executed(Err("boom".to_string()));
    match r {
        Err(e) => {
            assert!(matches!(e, DriverError::ExecuteFailed(_)));
            assert_eq!(e.message(), "Failed to execute: boom");
        }
        Ok(_) => panic!("expected a failure"),
    }
    assert_eq!(l.phase, Phase::Terminated);
    assert_eq!(l.last_exit_code, 5);
}

#[test]
fn cd_is_the_first_word() {
    assert!(is_cd_command("cd /tmp"));
    assert!(is_cd_command("  cd"));
    assert!(is_cd_command("cd\t.."));
    assert!(!is_cd_command("cdx"));
    assert!(!is_cd_command("echo cd"));
    assert!(!is_cd_command("c"));
}
