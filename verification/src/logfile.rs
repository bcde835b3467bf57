//! The rotating append-only log.
//!
//! [`Log`] is the fixed-capacity in-memory ring the process writes through:
//! appending keeps at most the capacity's worth of lines, evicting the
//! oldest first and preserving insertion order. [`LineLimitedWriter`] and
//! [`LineLimitedFile`] carry the file path and cap and compute the rotated
//! file content for the caller, who does the actual reading and writing —
//! under one exclusive lock around the whole read-modify-write cycle, since
//! this module holds no lock itself.
use vstd::prelude::*;

use crate::docfmt::join_lines;
use crate::docfmt::split_into_lines;
use crate::docfmt::split_lines;
use crate::textutil::chars_of;
use crate::textutil::string_of;
use crate::textutil::trim_spec;
use crate::textutil::trimmed;

verus! {

/// How many of the most recent lines the rotating log keeps by default.
pub const LOG_CAP: usize = 100;

/// The last `cap` elements of `s` — all of them if `s` is no longer.
pub open spec fn keep_last(s: Seq<Seq<char>>, cap: int) -> Seq<Seq<char>> {
    if s.len() <= cap {
        s
    } else {
        s.subrange(s.len() - cap, s.len() as int)
    }
}

/// The lines left after appending each of `msgs` in turn to an empty log of
/// capacity `cap`.
pub open spec fn log_lines_after(cap: int, msgs: Seq<Seq<char>>) -> Seq<Seq<char>>
    decreases msgs.len(),
{
    if msgs.len() == 0 {
        Seq::empty()
    } else {
        keep_last(log_lines_after(cap, msgs.drop_last()).push(msgs.last()), cap)
    }
}

/// The eviction law: appending `K` messages to an empty log of capacity
/// `cap` leaves exactly `min(K, cap)` lines — the most recent ones, oldest
/// evicted first, insertion order preserved.
pub proof fn lemma_log_lines_after(cap: int, msgs: Seq<Seq<char>>)
    requires
        cap >= 0,
    ensures
        log_lines_after(cap, msgs) == keep_last(msgs, cap),
        log_lines_after(cap, msgs).len() == if msgs.len() <= cap {
            msgs.len() as int
        } else {
            cap
        },
    decreases msgs.len(),
{
    if msgs.len() > 0 {
        lemma_log_lines_after(cap, msgs.drop_last());
        let prev = log_lines_after(cap, msgs.drop_last());
        assert(prev == keep_last(msgs.drop_last(), cap));
        if msgs.len() <= cap {
            assert(prev =~= msgs.drop_last());
            assert(prev.push(msgs.last()) =~= msgs);
        } else {
            assert(prev.push(msgs.last()).len() == cap + 1);
            assert(keep_last(prev.push(msgs.last()), cap) =~= msgs.subrange(
                msgs.len() - cap,
                msgs.len() as int,
            ));
        }
    }
}

/// One more append moves the model along: what [`Log::append`] ensures of
/// a log holding `log_lines_after(cap, msgs)` is exactly
/// `log_lines_after(cap, msgs.push(m))` — so any number of appends to an
/// empty log leaves the model's lines.
pub proof fn lemma_log_lines_after_snoc(cap: int, msgs: Seq<Seq<char>>, m: Seq<char>)
    ensures
        keep_last(log_lines_after(cap, msgs).push(m), cap) == log_lines_after(cap, msgs.push(m)),
{
    assert(msgs.push(m).drop_last() =~= msgs);
    assert(msgs.push(m).last() == m);
}

/// Appending pairwise distinct messages leaves pairwise distinct lines: with
/// `N` distinct concurrent appends serialized by the caller's lock, exactly
/// `min(N, cap)` distinct lines survive, none corrupted.
pub proof fn lemma_log_lines_distinct(cap: int, msgs: Seq<Seq<char>>)
    requires
        cap >= 0,
        forall|i: int, j: int| 0 <= i < j < msgs.len() ==> msgs[i] != msgs[j],
    ensures
        forall|i: int, j: int|
            0 <= i < j < log_lines_after(cap, msgs).len() ==> log_lines_after(cap, msgs)[i]
                != log_lines_after(cap, msgs)[j],
{
    lemma_log_lines_after(cap, msgs);
}

/// The fixed-capacity in-memory log ring.
pub struct Log {
    cap: usize,
    lines: Vec<String>,
}

impl Log {
    /// The capacity this log was made with.
    pub closed spec fn cap_spec(&self) -> int {
        self.cap as int
    }

    /// The lines currently held, oldest first.
    pub closed spec fn lines_view(&self) -> Seq<Seq<char>> {
        self.lines@.map_values(|s: String| s@)
    }

    /// At most the capacity's worth of lines is ever held.
    pub open spec fn wf(&self) -> bool {
        self.lines_view().len() <= self.cap_spec()
    }

    /// An empty log of the given capacity.
    pub fn new(cap: usize) -> (r: Log)
        ensures
            r.wf(),
            r.cap_spec() == cap,
            r.lines_view() == Seq::<Seq<char>>::empty(),
    {
        let r = Log { cap, lines: Vec::new() };
        proof {
            assert(r.lines_view() =~= Seq::<Seq<char>>::empty());
        }
        r
    }

    /// How many lines are held.
    pub fn len(&self) -> (n: usize)
        ensures
            n == self.lines_view().len(),
    {
        self.lines.len()
    }

    /// The line at `i`, oldest first.
    pub fn line_at(&self, i: usize) -> (r: &String)
        requires
            i < self.lines_view().len(),
        ensures
            r@ == self.lines_view()[i as int],
    {
        &self.lines[i]
    }

    /// Append one record line, evicting the oldest line when full.
    pub fn append(&mut self, message: String)
        requires
            old(self).wf(),
        ensures
            final(self).wf(),
            final(self).cap_spec() == old(self).cap_spec(),
            final(self).lines_view() == keep_last(
                old(self).lines_view().push(message@),
                old(self).cap_spec(),
            ),
    {
        let ghost pushed = old(self).lines_view().push(message@);
        self.lines.push(message);
        proof {
            assert(self.lines_view() =~= pushed);
        }
        if self.lines.len() > self.cap {
            let ghost before = self.lines_view();
            let _ = self.lines.remove(0);
            proof {
                assert(self.lines_view() =~= before.subrange(1, before.len() as int));
                assert(before.len() == old(self).cap_spec() + 1);
                assert(self.lines_view() =~= keep_last(pushed, old(self).cap_spec()));
            }
        } else {
            proof {
                assert(self.lines_view() =~= keep_last(pushed, old(self).cap_spec()));
            }
        }
    }

    /// The log as one text, each line closed by a line break.
    pub fn render(&self) -> (r: String)
        ensures
            r@ == join_lines(self.lines_view()),
    {
        let mut out: Vec<char> = Vec::new();
        let n = self.lines.len();
        let ghost lv = self.lines_view();
        proof {
            assert(lv.subrange(0, n as int) =~= lv);
        }
        for i in 0..n
            invariant
                n == self.lines@.len(),
                lv == self.lines_view(),
                join_lines(lv) == out@ + join_lines(lv.subrange(i as int, n as int)),
            decreases n - i,
        {
            let ghost rem = lv.subrange(i as int, n as int);
            proof {
                assert(rem[0] == lv[i as int]);
                assert(rem.drop_first() =~= lv.subrange(i as int + 1, n as int));
            }
            let line_chars = chars_of(self.lines[i].as_str());
            crate::textutil::push_all(&mut out, &line_chars);
            out.push('\n');
        }
        proof {
            assert(lv.subrange(n as int, n as int) =~= Seq::<Seq<char>>::empty());
            assert(out@ + Seq::<char>::empty() =~= out@);
        }
        string_of(&out)
    }
}

/// Replace every line break in a record message by a space, so the record
/// stays one log line.
pub open spec fn flatten_spec(s: Seq<char>) -> Seq<char> {
    s.map_values(|c: char| if c == '\n' || c == '\r' { ' ' } else { c })
}

/// Exec twin of [`flatten_spec`].
pub fn flatten_message(s: &str) -> (r: String)
    ensures
        r@ == flatten_spec(s@),
        forall|i: int| 0 <= i < r@.len() ==> r@[i] != '\n' && r@[i] != '\r',
{
    let v = chars_of(s);
    let mut out: Vec<char> = Vec::new();
    let n = v.len();
    for i in 0..n
        invariant
            n == v.len(),
            v@ == s@,
            out@ == flatten_spec(s@.take(i as int)),
    {
        let c = v[i];
        if c == '\n' || c == '\r' {
            out.push(' ');
        } else {
            out.push(c);
        }
        proof {
            assert(out@ =~= flatten_spec(s@.take(i + 1)));
        }
    }
    proof {
        assert(s@.take(n as int) =~= s@);
    }
    string_of(&out)
}

/// One log record: a timestamp, a severity tag and a message, serialized as
/// one text line.
pub struct LogRecord {
    pub timestamp: String,
    pub tag: String,
    pub message: String,
}

impl LogRecord {
    /// The one line this record is written as: the three fields separated by
    /// single spaces, line breaks flattened away.
    pub fn render(&self) -> (r: String)
        ensures
            r@ == flatten_spec(self.timestamp@) + " "@ + flatten_spec(self.tag@) + " "@
                + flatten_spec(self.message@),
    {
        let mut out: Vec<char> = Vec::new();
        let ts = flatten_message(self.timestamp.as_str());
        let tg = flatten_message(self.tag.as_str());
        let ms = flatten_message(self.message.as_str());
        crate::textutil::push_str_chars(&mut out, ts.as_str());
        crate::textutil::push_str_chars(&mut out, " ");
        crate::textutil::push_str_chars(&mut out, tg.as_str());
        crate::textutil::push_str_chars(&mut out, " ");
        crate::textutil::push_str_chars(&mut out, ms.as_str());
        string_of(&out)
    }
}

/// Factory carrying the log file's path and line cap; the original hands
/// one such value to the tracing layer, which asks it for writers.
pub struct LineLimitedWriter {
    path: String,
    max_lines: usize,
}

impl LineLimitedWriter {
    /// The path of the log file.
    pub closed spec fn path_spec(&self) -> Seq<char> {
        self.path@
    }

    /// The line cap.
    pub closed spec fn max_spec(&self) -> int {
        self.max_lines as int
    }

    /// A writer for the given path, keeping at most `max_lines` lines.
    pub fn new(path: String, max_lines: usize) -> (r: LineLimitedWriter)
        ensures
            r.path_spec() == path@,
            r.max_spec() == max_lines,
    {
        LineLimitedWriter { path, max_lines }
    }

    /// A single-use writing handle with the same path and cap.
    pub fn make_writer(&self) -> (r: LineLimitedFile)
        ensures
            r.path_spec() == self.path_spec(),
            r.max_spec() == self.max_spec(),
    {
        LineLimitedFile { path: self.path.clone(), max_lines: self.max_lines }
    }
}

/// One writing handle: computes, from the file's current content and a new
/// entry, the rotated content the caller must write back in one replace.
pub struct LineLimitedFile {
    path: String,
    max_lines: usize,
}

impl LineLimitedFile {
    /// The path of the log file.
    pub closed spec fn path_spec(&self) -> Seq<char> {
        self.path@
    }

    /// The line cap.
    pub closed spec fn max_spec(&self) -> int {
        self.max_lines as int
    }

    /// The path, for the caller that opens the file.
    pub fn path(&self) -> (r: &String)
        ensures
            r@ == self.path_spec(),
    {
        &self.path
    }

    /// The rotated content: the existing lines plus the trimmed entry's
    /// lines, keeping only the most recent `max_lines` of them.
    pub fn rotated_content(&self, existing: &str, entry: &str) -> (r: String)
        ensures
            r@ == join_lines(
                keep_last(
                    split_lines(existing@) + split_lines(trim_spec(entry@)),
                    self.max_spec(),
                ),
            ),
    {
        let ex_chars = chars_of(existing);
        let mut lines = split_into_lines(&ex_chars);
        let en_chars = chars_of(entry);
        let trimmed_entry = trimmed(&en_chars);
        let mut entry_lines = split_into_lines(&trimmed_entry);
        let ghost target = split_lines(existing@) + split_lines(trim_spec(entry@));
        let en = entry_lines.len();
        proof {
            assert(lines@.map_values(|l: Vec<char>| l@) + entry_lines@.map_values(
                |l: Vec<char>| l@,
            ).take(0) =~= lines@.map_values(|l: Vec<char>| l@));
        }
        let ghost elv = entry_lines@.map_values(|l: Vec<char>| l@);
        for i in 0..en
            invariant
                en == entry_lines@.len(),
                elv == entry_lines@.map_values(|l: Vec<char>| l@),
                elv.len() == en,
                forall|k: int| i <= k < en ==> entry_lines@[k]@ == elv[k],
                lines@.map_values(|l: Vec<char>| l@) == split_lines(existing@) + elv.take(
                    i as int,
                ),
        {
            let ghost before = lines@.map_values(|l: Vec<char>| l@);
            let line = subcopy(&entry_lines, i);
            lines.push(line);
            proof {
                assert(lines@.map_values(|l: Vec<char>| l@) =~= before.push(elv[i as int]));
                assert((split_lines(existing@) + elv.take(i as int)).push(elv[i as int])
                    =~= split_lines(existing@) + elv.take(i + 1));
            }
        }
        proof {
            assert(elv.take(en as int) =~= elv);
            assert(lines@.map_values(|l: Vec<char>| l@) == target);
        }
        while lines.len() > self.max_lines
            invariant
                keep_last(lines@.map_values(|l: Vec<char>| l@), self.max_spec()) == keep_last(
                    target,
                    self.max_spec(),
                ),
            decreases lines@.len(),
        {
            let ghost before = lines@.map_values(|l: Vec<char>| l@);
            let _ = lines.remove(0);
            proof {
                assert(lines@.map_values(|l: Vec<char>| l@) =~= before.subrange(
                    1,
                    before.len() as int,
                ));
                assert(keep_last(before.subrange(1, before.len() as int), self.max_spec())
                    =~= keep_last(before, self.max_spec()));
            }
        }
        let mut out: Vec<char> = Vec::new();
        let n = lines.len();
        let ghost lv = lines@.map_values(|l: Vec<char>| l@);
        proof {
            assert(lv.len() <= self.max_spec());
            assert(keep_last(lv, self.max_spec()) == lv);
            assert(lv.subrange(0, n as int) =~= lv);
        }
        for i in 0..n
            invariant
                n == lines@.len(),
                lv == lines@.map_values(|l: Vec<char>| l@),
                join_lines(lv) == out@ + join_lines(lv.subrange(i as int, n as int)),
        {
            let ghost rem = lv.subrange(i as int, n as int);
            proof {
                assert(rem[0] == lv[i as int]);
                assert(rem.drop_first() =~= lv.subrange(i as int + 1, n as int));
            }
            let line = &lines[i];
            crate::textutil::push_all(&mut out, line);
            out.push('\n');
        }
        proof {
            assert(lv.subrange(n as int, n as int) =~= Seq::<Seq<char>>::empty());
            assert(out@ + Seq::<char>::empty() =~= out@);
        }
        string_of(&out)
    }
}

/// Copy the line at `i`.
fn subcopy(lines: &Vec<Vec<char>>, i: usize) -> (r: Vec<char>)
    requires
        i < lines@.len(),
    ensures
        r@ == lines@[i as int]@,
{
    let src = &lines[i];
    let mut r: Vec<char> = Vec::new();
    crate::textutil::push_all(&mut r, src);
    r
}

} // verus!
