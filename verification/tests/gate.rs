use gucli::executor::ExecutionOutcome;
use gucli::gate::NOTIFY_BODY_MAX;
use gucli::gate::compose;
use gucli::gate::decide;
use gucli::gate::run_command;

#[test]
fn failures_and_timeouts_always_notify() {
    let failure = ExecutionOutcome::Failure("e".to_string());
    let timeout = ExecutionOutcome::TimedOut(500);
    assert!(decide(&failure, false));
    assert!(decide(&failure, true));
    assert!(decide(&timeout, false));
    assert!(decide(&timeout, true));
}

#[test]
fn success_notifies_only_when_asked() {
    let success = ExecutionOutcome::Success("ok".to_string());
    assert!(!decide(&success, false));
    assert!(decide(&success, true));
}

#[test]
fn compose_splits_at_the_first_line_break() {
    let (summary, body) = compose("first line\nsecond\nthird");
    assert_eq!(summary, "first line");
    assert_eq!(body, "\nsecond\nthird");
}

#[test]
fn compose_without_a_break_has_an_empty_body() {
    let (summary, body) = compose("all on one line");
    assert_eq!(summary, "all on one line");
    assert_eq!(body, "");
}

#[test]
fn compose_clamps_a_long_body() {
    let long = format!("head\n{}", "x".repeat(300));
    let (summary, body) = compose(&long);
    assert_eq!(summary, "head");
    assert_eq!(body.chars().count(), NOTIFY_BODY_MAX + 3);
    assert!(body.ends_with("..."));
    assert!(body.starts_with('\n'));
}

#[test]
fn a_body_at_the_limit_is_untouched() {
    let exact = format!("head\n{}", "y".repeat(199));
    let (_, body) = compose(&exact);
    assert_eq!(body.chars().count(), 200);
    assert!(!body.ends_with("..."));
}

#[test]
fn run_command_reports_a_success() {
    let report = run_command("echo hi", true, ExecutionOutcome::Success("hi\n".to_string()));
    assert_eq!(report.message, "Ok( Command `echo hi` executed ), Result:\n hi\n");
    assert_eq!(report.log_line, "Command `echo hi` executed, Result: hi ");
    let n = report.notify.expect("sn is on, so a success notifies");
    assert_eq!(n.summary, "Ok( Command `echo hi` executed ), Result:");
    assert_eq!(n.body, "\n hi\n");
}

#[test]
fn run_command_swallows_notification_when_sn_is_off() {
    let report = run_command("echo hi", false, ExecutionOutcome::Success("hi\n".to_string()));
    assert!(report.notify.is_none());
}

#[test]
fn run_command_reports_a_failure_even_without_sn() {
    let report = run_command("exit 1", false, ExecutionOutcome::Failure("bad".to_string()));
    assert_eq!(report.message, "Err( Command `exit 1` failed ), Error:\n bad");
    assert_eq!(report.log_line, "Command `exit 1` failed, Error: bad");
    assert!(report.notify.is_some());
}

#[test]
fn run_command_reports_a_timeout_as_a_failure_message() {
    let report = run_command("sleep 2", false, ExecutionOutcome::TimedOut(500));
    assert_eq!(
        report.message,
        "Err( Command `sleep 2` failed ), Error:\n Command timed out after 500 ms"
    );
    assert_eq!(
        report.log_line,
        "Command `sleep 2` failed, Error: Command timed out after 500 ms"
    );
    assert!(report.notify.is_some());
}
