use gucli::executor::DEFAULT_TIMEOUT_MS;
use gucli::executor::ExecutionOutcome;
use gucli::executor::GRACE_MS;
use gucli::executor::POLL_INTERVAL_MS;
use gucli::executor::PollEvent;
use gucli::executor::Supervisor;
use gucli::executor::SupervisorStep;
use gucli::executor::outcome_of_exit;
use gucli::executor::spawn_failure_outcome;
use gucli::executor::timeout_notice;
use gucli::executor::wait_failure_outcome;

#[test]
fn a_hanging_command_times_out_within_the_budget() {
    // a child that never exits: every poll observes it still running
    let mut sup = Supervisor::with_defaults();
    let mut slept: u64 = 0;
    let outcome = loop {
        match sup.observe(PollEvent::Running) {
            SupervisorStep::Sleep { duration_ms } => {
                slept += duration_ms;
            },
            SupervisorStep::Terminate { grace_ms, outcome } => {
                slept += grace_ms;
                break outcome;
            },
            SupervisorStep::Conclude { .. } => panic!("a running child never concludes"),
        }
    };
    match outcome {
        ExecutionOutcome::TimedOut(elapsed) => {
            assert_eq!(elapsed, DEFAULT_TIMEOUT_MS);
        },
        _ => panic!("expected a timeout"),
    }
    // total suspension stays under timeout + poll interval + grace
    assert_eq!(slept, 600);
    assert!(slept < DEFAULT_TIMEOUT_MS + POLL_INTERVAL_MS + GRACE_MS);
    assert!(slept < 700);
}

#[test]
fn a_quick_successful_command_concludes_with_its_stdout() {
    let mut sup = Supervisor::with_defaults();
    // first poll: still running; second poll: exited cleanly
    match sup.observe(PollEvent::Running) {
        SupervisorStep::Sleep { duration_ms } => assert_eq!(duration_ms, POLL_INTERVAL_MS),
        _ => panic!("expected to keep waiting"),
    }
    let step = sup.observe(PollEvent::Exited {
        success: true,
        stdout: "hello\n".to_string(),
        stderr: String::new(),
    });
    match step {
        SupervisorStep::Conclude { outcome: ExecutionOutcome::Success(text) } => {
            assert!(text.contains("hello"));
        },
        _ => panic!("expected a successful conclusion"),
    }
}

#[test]
fn a_failing_command_concludes_with_its_stderr() {
    let mut sup = Supervisor::with_defaults();
    let step = sup.observe(PollEvent::Exited {
        success: false,
        stdout: String::new(),
        stderr: "boom".to_string(),
    });
    match step {
        SupervisorStep::Conclude { outcome: ExecutionOutcome::Failure(text) } => {
            assert_eq!(text, "boom");
        },
        _ => panic!("expected a failure conclusion"),
    }
}

#[test]
fn exit_status_selects_the_stream() {
    match outcome_of_exit(true, "out".to_string(), "err".to_string()) {
        ExecutionOutcome::Success(t) => assert_eq!(t, "out"),
        _ => panic!("expected success"),
    }
    match outcome_of_exit(false, "out".to_string(), "err".to_string()) {
        ExecutionOutcome::Failure(t) => assert_eq!(t, "err"),
        _ => panic!("expected failure"),
    }
}

#[test]
fn spawn_and_wait_failures_are_reported_not_raised() {
    match spawn_failure_outcome("No such file or directory") {
        ExecutionOutcome::Failure(t) => {
            assert_eq!(t, "Failed to spawn process: No such file or directory");
        },
        _ => panic!("expected a failure outcome"),
    }
    let mut sup = Supervisor::with_defaults();
    match sup.observe(PollEvent::PollFailed { message: "gone".to_string() }) {
        SupervisorStep::Conclude { outcome: ExecutionOutcome::Failure(t) } => {
            assert_eq!(t, "Error waiting for process: gone");
        },
        _ => panic!("expected a failure conclusion"),
    }
    match wait_failure_outcome("gone") {
        ExecutionOutcome::Failure(t) => assert_eq!(t, "Error waiting for process: gone"),
        _ => panic!("expected a failure outcome"),
    }
}

#[test]
fn timeout_notice_names_the_elapsed_time() {
    assert_eq!(timeout_notice(500), "Command timed out after 500 ms");
    assert_eq!(timeout_notice(0), "Command timed out after 0 ms");
    assert_eq!(timeout_notice(12345), "Command timed out after 12345 ms");
}

#[test]
fn a_custom_budget_is_respected() {
    let mut sup = Supervisor::new(250);
    let mut polls = 0;
    loop {
        match sup.observe(PollEvent::Running) {
            SupervisorStep::Sleep { .. } => polls += 1,
            SupervisorStep::Terminate { outcome: ExecutionOutcome::TimedOut(e), .. } => {
                assert_eq!(e, 300);
                break;
            },
            _ => panic!("unexpected step"),
        }
    }
    assert_eq!(polls, 3);
}
