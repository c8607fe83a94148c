use pyrunner::runner::{build_run_command, finish_command, timed_out};

#[test]
fn command_uses_script_interpreter_or_default() {
    assert_eq!(
        build_run_command(None, "python3", "/s.py".to_string(), &vec!["a".to_string(), "b".to_string()]),
        vec!["python3".to_string(), "/s.py".to_string(), "a".to_string(), "b".to_string()]
    );
    assert_eq!(
        build_run_command(Some("pypy".to_string()), "python3", "/s.py".to_string(), &vec![]),
        vec!["pypy".to_string(), "/s.py".to_string()]
    );
}

#[test]
fn timeout_decision() {
    assert!(timed_out(0, 0, 0));
    assert!(!timed_out(1, 0, 999_999_999));
    assert!(timed_out(1, 1, 0));
}

#[test]
fn timed_out_run_reports_failure_with_a_note() {
    let out = finish_command(b"partial", b"warn", Some(0), true, true, 1);
    assert_eq!(out.exit_code, -1);
    assert!(!out.success);
    assert_eq!(out.stdout, "partial");
    assert_eq!(out.stderr, "warn\nprocess timed out after 1s");
    let out = finish_command(b"", b"", None, false, true, 60);
    assert_eq!(out.stderr, "process timed out after 60s");
}

#[test]
fn finished_run_keeps_exit_status_and_decodes_lossily() {
    let out = finish_command(&[0x66, 0xff, 0x6f], b"err\n", Some(3), false, false, 60);
    assert_eq!(out.exit_code, 3);
    assert!(!out.success);
    assert_eq!(out.stdout, "f\u{fffd}o");
    assert_eq!(out.stderr, "err\n");
    let out = finish_command(b"", b"", None, false, false, 60);
    assert_eq!(out.exit_code, -1);
}

use pyrunner::runner::annotate_stderr;

#[test]
fn timeout_note_goes_on_its_own_line() {
    assert_eq!(annotate_stderr("x\n".to_string(), true, 5), "x\nprocess timed out after 5s");
    assert_eq!(annotate_stderr("x".to_string(), false, 5), "x");
}
