//! The bounded process executor's decision core.
//!
//! Running a child process, sleeping and killing are the caller's concern;
//! this module decides, from the supervisor state and each poll observation,
//! whether to keep waiting, to terminate the child, or which outcome to
//! return — and proves the wall-clock budget: the waiting a supervisor ever
//! asks for stays below `timeout + poll interval`, so a timed-out run
//! concludes within `timeout + poll interval + grace` (700 ms at the
//! defaults).
use vstd::prelude::*;

use crate::textutil::dec_spec;
use crate::textutil::push_dec;
use crate::textutil::push_str_chars;
use crate::textutil::string_of;

verus! {

/// Hard wall-clock budget for one invocation, in milliseconds.
pub const DEFAULT_TIMEOUT_MS: u64 = 500;

/// How often the child's status is polled, in milliseconds.
pub const POLL_INTERVAL_MS: u64 = 100;

/// How long a killed child is given to go away, in milliseconds.
pub const GRACE_MS: u64 = 100;

/// The structured result of one invocation: the captured stdout on success,
/// the captured stderr (or a spawn or wait failure notice) on failure, or
/// the elapsed milliseconds on a timeout.
pub enum ExecutionOutcome {
    Success(String),
    Failure(String),
    TimedOut(u64),
}

/// What one poll of the child observed.
pub enum PollEvent {
    /// The child is still running.
    Running,
    /// The child exited; `success` is its exit status, with both captured
    /// streams.
    Exited { success: bool, stdout: String, stderr: String },
    /// Polling itself failed; `message` describes the error.
    PollFailed { message: String },
}

/// What the caller must do next.
pub enum SupervisorStep {
    /// Keep waiting: sleep this long, poll again, and report the event.
    Sleep { duration_ms: u64 },
    /// The budget is spent: kill the child, allow it `grace_ms` to go away,
    /// and return `outcome` — any captured output is discarded.
    Terminate { grace_ms: u64, outcome: ExecutionOutcome },
    /// The run is over; return `outcome`.
    Conclude { outcome: ExecutionOutcome },
}

/// The outcome of a normal exit: stdout on success, stderr otherwise.
pub fn outcome_of_exit(success: bool, stdout: String, stderr: String) -> (r: ExecutionOutcome)
    ensures
        success ==> r == ExecutionOutcome::Success(stdout),
        !success ==> r == ExecutionOutcome::Failure(stderr),
{
    if success {
        ExecutionOutcome::Success(stdout)
    } else {
        ExecutionOutcome::Failure(stderr)
    }
}

/// The failure text when the child could not be spawned at all.
pub fn spawn_failure_outcome(err: &str) -> (r: ExecutionOutcome)
    ensures
        r matches ExecutionOutcome::Failure(t) && t@ == "Failed to spawn process: "@ + err@,
{
    let mut out: Vec<char> = Vec::new();
    push_str_chars(&mut out, "Failed to spawn process: ");
    push_str_chars(&mut out, err);
    ExecutionOutcome::Failure(string_of(&out))
}

/// The failure text when waiting on the child failed.
pub fn wait_failure_outcome(err: &str) -> (r: ExecutionOutcome)
    ensures
        r matches ExecutionOutcome::Failure(t) && t@ == "Error waiting for process: "@ + err@,
{
    let mut out: Vec<char> = Vec::new();
    push_str_chars(&mut out, "Error waiting for process: ");
    push_str_chars(&mut out, err);
    ExecutionOutcome::Failure(string_of(&out))
}

/// The displayable notice a timed-out run is reported as.
pub open spec fn timeout_text(elapsed_ms: int) -> Seq<char> {
    "Command timed out after "@ + dec_spec(elapsed_ms) + " ms"@
}

/// Exec twin of [`timeout_text`].
pub fn timeout_notice(elapsed_ms: u64) -> (r: String)
    ensures
        r@ == timeout_text(elapsed_ms as int),
{
    let mut out: Vec<char> = Vec::new();
    push_str_chars(&mut out, "Command timed out after ");
    push_dec(&mut out, elapsed_ms);
    push_str_chars(&mut out, " ms");
    string_of(&out)
}

/// Supervision state of one invocation: the fixed budget and how long the
/// caller has been told to wait so far.
pub struct Supervisor {
    pub timeout_ms: u64,
    pub poll_interval_ms: u64,
    pub grace_ms: u64,
    pub elapsed_ms: u64,
}

impl Supervisor {
    /// The budget invariant: waits are ordered only while the elapsed time
    /// is below the timeout, so it never reaches `timeout + poll interval`,
    /// and all the sums involved fit the arithmetic.
    pub open spec fn wf(self) -> bool {
        &&& self.poll_interval_ms >= 1
        &&& self.timeout_ms as int + self.poll_interval_ms as int + self.grace_ms as int
            <= u64::MAX as int
        &&& (self.elapsed_ms as int) < self.timeout_ms as int + self.poll_interval_ms as int
    }

    /// A supervisor for one invocation under the given budget.
    pub fn new(timeout_ms: u64) -> (s: Supervisor)
        requires
            timeout_ms as int + 200 <= u64::MAX as int,
        ensures
            s.wf(),
            s.timeout_ms == timeout_ms,
            s.poll_interval_ms == POLL_INTERVAL_MS,
            s.grace_ms == GRACE_MS,
            s.elapsed_ms == 0,
    {
        Supervisor {
            timeout_ms,
            poll_interval_ms: POLL_INTERVAL_MS,
            grace_ms: GRACE_MS,
            elapsed_ms: 0,
        }
    }

    /// A supervisor under the default 500 ms budget.
    pub fn with_defaults() -> (s: Supervisor)
        ensures
            s.wf(),
            s.timeout_ms == DEFAULT_TIMEOUT_MS,
            s.poll_interval_ms == POLL_INTERVAL_MS,
            s.grace_ms == GRACE_MS,
            s.elapsed_ms == 0,
    {
        Supervisor::new(DEFAULT_TIMEOUT_MS)
    }

    /// Decide on one poll observation.
    ///
    /// An exit or a poll failure concludes the run at once, whatever the
    /// clock says. While the child runs, the caller is told to keep waiting
    /// one poll interval at a time until the elapsed waiting reaches the
    /// timeout; then, and only then, the child is terminated and the run is
    /// reported as timed out with the elapsed time.
    pub fn observe(&mut self, event: PollEvent) -> (step: SupervisorStep)
        requires
            old(self).wf(),
        ensures
            final(self).wf(),
            final(self).timeout_ms == old(self).timeout_ms,
            final(self).poll_interval_ms == old(self).poll_interval_ms,
            final(self).grace_ms == old(self).grace_ms,
            match event {
                PollEvent::Exited { success, stdout, stderr } => {
                    &&& *final(self) == *old(self)
                    &&& step == (SupervisorStep::Conclude {
                        outcome: if success {
                            ExecutionOutcome::Success(stdout)
                        } else {
                            ExecutionOutcome::Failure(stderr)
                        },
                    })
                },
                PollEvent::PollFailed { message } => {
                    &&& *final(self) == *old(self)
                    &&& step matches SupervisorStep::Conclude { outcome }
                    &&& outcome matches ExecutionOutcome::Failure(t)
                    &&& t@ == "Error waiting for process: "@ + message@
                },
                PollEvent::Running => {
                    if old(self).elapsed_ms < old(self).timeout_ms {
                        &&& step == (SupervisorStep::Sleep {
                            duration_ms: old(self).poll_interval_ms,
                        })
                        &&& final(self).elapsed_ms == old(self).elapsed_ms + old(
                            self,
                        ).poll_interval_ms
                    } else {
                        &&& *final(self) == *old(self)
                        &&& step == (SupervisorStep::Terminate {
                            grace_ms: old(self).grace_ms,
                            outcome: ExecutionOutcome::TimedOut(old(self).elapsed_ms),
                        })
                    }
                },
            },
    {
        match event {
            PollEvent::Exited { success, stdout, stderr } => SupervisorStep::Conclude {
                outcome: outcome_of_exit(success, stdout, stderr),
            },
            PollEvent::PollFailed { message } => SupervisorStep::Conclude {
                outcome: wait_failure_outcome(message.as_str()),
            },
            PollEvent::Running => {
                if self.elapsed_ms < self.timeout_ms {
                    let step = SupervisorStep::Sleep { duration_ms: self.poll_interval_ms };
                    self.elapsed_ms = self.elapsed_ms + self.poll_interval_ms;
                    step
                } else {
                    SupervisorStep::Terminate {
                        grace_ms: self.grace_ms,
                        outcome: ExecutionOutcome::TimedOut(self.elapsed_ms),
                    }
                }
            },
        }
    }
}

/// The wall-clock budget law: in any reachable supervisor state the waiting
/// ordered so far stays below `timeout + poll interval`, so a run that times
/// out — which happens exactly when the waiting has reached the timeout —
/// concludes, grace included, within `timeout + poll interval + grace`:
/// under 700 ms at the defaults, never blocking longer.
pub proof fn lemma_timed_out_within_budget(s: Supervisor)
    requires
        s.wf(),
    ensures
        (s.elapsed_ms as int + s.grace_ms as int) < s.timeout_ms as int + s.poll_interval_ms as int
            + s.grace_ms as int,
        s.timeout_ms == DEFAULT_TIMEOUT_MS && s.poll_interval_ms == POLL_INTERVAL_MS
            && s.grace_ms == GRACE_MS ==> (s.elapsed_ms as int + s.grace_ms as int) < 700,
{
}

} // verus!
