//! The notification dispatch gate: whether an outcome is surfaced as a
//! notification, and how a message is split and clamped for the external
//! notifier. Actually displaying the notification is the caller's concern,
//! and its absence must degrade to a logged warning, never to an error.
use vstd::prelude::*;

use crate::docfmt::find_nl;
use crate::docfmt::lemma_find_nl;
use crate::executor::ExecutionOutcome;
use crate::executor::timeout_notice;
use crate::executor::timeout_text;
use crate::logfile::flatten_message;
use crate::logfile::flatten_spec;
use crate::textutil::chars_of;
use crate::textutil::push_str_chars;
use crate::textutil::string_of;

verus! {

/// The most characters a notification body may carry.
pub const NOTIFY_BODY_MAX: usize = 200;

/// Whether an outcome is surfaced: failures and timeouts always, successes
/// only when the command asks for it.
pub fn decide(outcome: &ExecutionOutcome, notify_on_success: bool) -> (r: bool)
    ensures
        r == match outcome {
            ExecutionOutcome::Success(_) => notify_on_success,
            ExecutionOutcome::Failure(_) => true,
            ExecutionOutcome::TimedOut(_) => true,
        },
{
    match outcome {
        ExecutionOutcome::Success(_) => notify_on_success,
        ExecutionOutcome::Failure(_) => true,
        ExecutionOutcome::TimedOut(_) => true,
    }
}

/// The notification summary: the message's first line.
pub open spec fn summary_spec(m: Seq<char>) -> Seq<char> {
    m.take(find_nl(m))
}

/// The notification body: the remainder of the message from the first line
/// break on, clamped to [`NOTIFY_BODY_MAX`] characters with a trailing
/// ellipsis when over.
pub open spec fn body_spec(m: Seq<char>) -> Seq<char> {
    let rest = m.subrange(find_nl(m), m.len() as int);
    if rest.len() > 200 {
        rest.take(200) + "..."@
    } else {
        rest
    }
}

/// Split a message for the notifier: first line as the summary, the rest as
/// the body, clamped so a long result cannot overload the notifier.
pub fn compose(message: &str) -> (r: (String, String))
    ensures
        r.0@ == summary_spec(message@),
        r.1@ == body_spec(message@),
{
    let v = chars_of(message);
    let n = v.len();
    let mut i: usize = 0;
    while i < n && v[i] != '\n'
        invariant
            n == v.len(),
            v@ == message@,
            0 <= i <= n,
            forall|j: int| 0 <= j < i ==> v@[j] != '\n',
        decreases n - i,
    {
        i += 1;
    }
    proof {
        lemma_find_nl(message@);
        if i < n {
            assert(message@[i as int] == '\n');
            assert(find_nl(message@) == i);
        } else {
            if find_nl(message@) < n {
                assert(message@[find_nl(message@)] == '\n');
                assert(false);
            }
        }
    }
    let mut summary: Vec<char> = Vec::new();
    let mut k: usize = 0;
    while k < i
        invariant
            i <= n == v.len(),
            v@ == message@,
            summary@ == message@.take(k as int),
            k <= i,
        decreases i - k,
    {
        summary.push(v[k]);
        proof {
            assert(message@.take(k as int).push(message@[k as int]) =~= message@.take(k + 1));
        }
        k += 1;
    }
    let mut body: Vec<char> = Vec::new();
    let mut m: usize = i;
    let limit = if n - i > NOTIFY_BODY_MAX {
        i + NOTIFY_BODY_MAX
    } else {
        n
    };
    while m < limit
        invariant
            i <= limit <= n == v.len(),
            v@ == message@,
            i <= m <= limit,
            body@ == message@.subrange(i as int, m as int),
        decreases limit - m,
    {
        body.push(v[m]);
        proof {
            assert(message@.subrange(i as int, m as int).push(message@[m as int]) =~= message@
                .subrange(i as int, m + 1));
        }
        m += 1;
    }
    if n - i > NOTIFY_BODY_MAX {
        push_str_chars(&mut body, "...");
        proof {
            let rest = message@.subrange(i as int, n as int);
            assert(rest.len() > 200);
            assert(rest.take(200) =~= message@.subrange(i as int, i as int + 200));
            assert(body@ =~= rest.take(200) + "..."@);
        }
    } else {
        proof {
            let rest = message@.subrange(i as int, n as int);
            assert(rest.len() <= 200);
            assert(body@ =~= rest);
        }
    }
    proof {
        assert(summary@ =~= summary_spec(message@));
    }
    (string_of(&summary), string_of(&body))
}

/// A notification ready for the external notifier.
pub struct Notification {
    pub summary: String,
    pub body: String,
}

/// Everything one run reports: the displayable message, the flattened log
/// line, and the notification to send, if policy asks for one.
pub struct RunReport {
    pub message: String,
    pub log_line: String,
    pub notify: Option<Notification>,
}

/// The displayable message for an outcome of running `cmd`.
pub open spec fn message_spec(cmd: Seq<char>, outcome: ExecutionOutcome) -> Seq<char> {
    match outcome {
        ExecutionOutcome::Success(t) => "Ok( Command `"@ + cmd + "` executed ), Result:\n "@ + t@,
        ExecutionOutcome::Failure(t) => "Err( Command `"@ + cmd + "` failed ), Error:\n "@ + t@,
        ExecutionOutcome::TimedOut(e) => "Err( Command `"@ + cmd + "` failed ), Error:\n "@
            + timeout_text(e as int),
    }
}

/// The one-line log record body for an outcome of running `cmd`.
pub open spec fn log_line_spec(cmd: Seq<char>, outcome: ExecutionOutcome) -> Seq<char> {
    match outcome {
        ExecutionOutcome::Success(t) => "Command `"@ + cmd + "` executed, Result: "@
            + flatten_spec(t@),
        ExecutionOutcome::Failure(t) => "Command `"@ + cmd + "` failed, Error: "@ + flatten_spec(
            t@,
        ),
        ExecutionOutcome::TimedOut(e) => "Command `"@ + cmd + "` failed, Error: "@ + flatten_spec(
            timeout_text(e as int),
        ),
    }
}

/// Whether a notification is sent for this outcome.
pub open spec fn should_notify(outcome: ExecutionOutcome, sn: bool) -> bool {
    match outcome {
        ExecutionOutcome::Success(_) => sn,
        ExecutionOutcome::Failure(_) => true,
        ExecutionOutcome::TimedOut(_) => true,
    }
}

/// Turn one finished run into everything the caller reports: the message to
/// display, the record for the log, and — exactly when policy asks for one
/// — the composed notification.
pub fn run_command(cmd: &str, sn: bool, outcome: ExecutionOutcome) -> (r: RunReport)
    ensures
        r.message@ == message_spec(cmd@, outcome),
        r.log_line@ == log_line_spec(cmd@, outcome),
        r.notify is Some <==> should_notify(outcome, sn),
        r.notify matches Some(nt) ==> nt.summary@ == summary_spec(message_spec(cmd@, outcome))
            && nt.body@ == body_spec(message_spec(cmd@, outcome)),
{
    let (success, text): (bool, String) = match &outcome {
        ExecutionOutcome::Success(t) => (true, t.clone()),
        ExecutionOutcome::Failure(t) => (false, t.clone()),
        ExecutionOutcome::TimedOut(e) => (false, timeout_notice(*e)),
    };
    let mut msg: Vec<char> = Vec::new();
    if success {
        push_str_chars(&mut msg, "Ok( Command `");
        push_str_chars(&mut msg, cmd);
        push_str_chars(&mut msg, "` executed ), Result:\n ");
    } else {
        push_str_chars(&mut msg, "Err( Command `");
        push_str_chars(&mut msg, cmd);
        push_str_chars(&mut msg, "` failed ), Error:\n ");
    }
    push_str_chars(&mut msg, text.as_str());
    let message = string_of(&msg);
    let flat = flatten_message(text.as_str());
    let mut ll: Vec<char> = Vec::new();
    push_str_chars(&mut ll, "Command `");
    push_str_chars(&mut ll, cmd);
    if success {
        push_str_chars(&mut ll, "` executed, Result: ");
    } else {
        push_str_chars(&mut ll, "` failed, Error: ");
    }
    push_str_chars(&mut ll, flat.as_str());
    let log_line = string_of(&ll);
    let notify = if decide(&outcome, sn) {
        let (summary, body) = compose(message.as_str());
        Some(Notification { summary, body })
    } else {
        None
    };
    RunReport { message, log_line, notify }
}

} // verus!
