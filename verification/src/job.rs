//! The record of one job.
//!
//! The record is the primary source of a job result. The supervisor writes it
//! in one operation, and the coordinator keeps a copy only.

use crate::text;
use vstd::prelude::*;
use vstd::string::*;

verus! {

/// The state of a job.
#[derive(Debug, Clone, Copy, PartialEq, Eq, Structural)]
pub enum JobState {
    /// qex accepted the job. The job waits for free capacity in the budget.
    Queued,
    /// qex started the supervisor. The supervisor starts the job process.
    Starting,
    Running,
    /// The job stopped with the exit code 0.
    Completed,
    /// The job stopped with an exit code that is not 0, or a signal stopped it.
    Failed,
    /// The command `qex kill` stopped the job.
    Killed,
    /// The job used more time than the `--timeout` value.
    Timeout,
    /// The job waited more time than its `--max-queue-time` value, so it never
    /// started.
    Expired,
    /// The out-of-memory killer or the cgroup limit stopped the job.
    ///
    /// This state is different from `failed`. The correction is also different:
    /// the memory claim is too small, or the machine is too small.
    Oom,
    /// qex removed the job from the queue before the job started.
    Cancelled,
    /// A job that this job needed did not succeed, so this job did not start.
    ///
    /// In a pipeline of six stages, one stage fails and the stages after it are
    /// `skipped`. A reader thus finds one failure only, and that failure is the
    /// cause.
    Skipped,
}

impl JobState {
    /// The word for the state.
    pub open spec fn word(self) -> Seq<char> {
        match self {
            JobState::Queued => "queued"@,
            JobState::Starting => "starting"@,
            JobState::Running => "running"@,
            JobState::Completed => "completed"@,
            JobState::Failed => "failed"@,
            JobState::Killed => "killed"@,
            JobState::Timeout => "timeout"@,
            JobState::Expired => "expired"@,
            JobState::Oom => "oom"@,
            JobState::Cancelled => "cancelled"@,
            JobState::Skipped => "skipped"@,
        }
    }

    /// True when the state never changes again.
    pub open spec fn is_final(self) -> bool {
        !(self is Queued || self is Starting || self is Running)
    }

    /// True when the job operates.
    pub open spec fn is_alive(self) -> bool {
        self is Starting || self is Running
    }

    /// Tests if the job is in its final state.
    pub fn is_terminal(self) -> (r: bool)
        ensures
            r == self.is_final(),
    {
        !matches!(self, JobState::Queued | JobState::Starting | JobState::Running)
    }

    /// Tests if the job operates.
    pub fn is_active(self) -> (r: bool)
        ensures
            r == self.is_alive(),
    {
        matches!(self, JobState::Starting | JobState::Running)
    }

    /// The word for the state.
    pub fn as_str(self) -> (r: &'static str)
        ensures
            r@ == self.word(),
    {
        match self {
            JobState::Queued => "queued",
            JobState::Starting => "starting",
            JobState::Running => "running",
            JobState::Completed => "completed",
            JobState::Failed => "failed",
            JobState::Killed => "killed",
            JobState::Timeout => "timeout",
            JobState::Expired => "expired",
            JobState::Oom => "oom",
            JobState::Cancelled => "cancelled",
            JobState::Skipped => "skipped",
        }
    }

    /// The state that a word names. The word may have white space around it
    /// and capital letters in it.
    pub open spec fn of_word(s: Seq<char>) -> Option<JobState> {
        let w = text::lowered(text::trimmed(s));
        if w == "queued"@ {
            Some(JobState::Queued)
        } else if w == "starting"@ {
            Some(JobState::Starting)
        } else if w == "running"@ {
            Some(JobState::Running)
        } else if w == "completed"@ {
            Some(JobState::Completed)
        } else if w == "failed"@ {
            Some(JobState::Failed)
        } else if w == "killed"@ {
            Some(JobState::Killed)
        } else if w == "timeout"@ {
            Some(JobState::Timeout)
        } else if w == "expired"@ {
            Some(JobState::Expired)
        } else if w == "oom"@ {
            Some(JobState::Oom)
        } else if w == "cancelled"@ || w == "canceled"@ {
            Some(JobState::Cancelled)
        } else if w == "skipped"@ {
            Some(JobState::Skipped)
        } else {
            None
        }
    }

    /// Reads the word for a state.
    pub fn parse(s: &str) -> (r: Result<JobState, String>)
        ensures
            match r {
                Ok(state) => JobState::of_word(s@) == Some(state),
                Err(e) => JobState::of_word(s@) is None && e@ == "unknown job state `"@
                    + text::lowered(text::trimmed(s@))
                    + "`. Use one of these states: queued, starting, running, completed, failed, killed, timeout, oom, cancelled"@,
            },
    {
        let w = text::lower(text::trim(s).as_str());
        let word = w.as_str();
        if text::same(word, "queued") {
            Ok(JobState::Queued)
        } else if text::same(word, "starting") {
            Ok(JobState::Starting)
        } else if text::same(word, "running") {
            Ok(JobState::Running)
        } else if text::same(word, "completed") {
            Ok(JobState::Completed)
        } else if text::same(word, "failed") {
            Ok(JobState::Failed)
        } else if text::same(word, "killed") {
            Ok(JobState::Killed)
        } else if text::same(word, "timeout") {
            Ok(JobState::Timeout)
        } else if text::same(word, "expired") {
            Ok(JobState::Expired)
        } else if text::same(word, "oom") {
            Ok(JobState::Oom)
        } else if text::same(word, "cancelled") || text::same(word, "canceled") {
            Ok(JobState::Cancelled)
        } else if text::same(word, "skipped") {
            Ok(JobState::Skipped)
        } else {
            let mut e = text::owned("unknown job state `");
            e.append(word);
            e.append(
                "`. Use one of these states: queued, starting, running, completed, failed, killed, timeout, oom, cancelled",
            );
            Err(e)
        }
    }
}

impl std::str::FromStr for JobState {
    type Err = String;

    /// Reads the word for a state, as `parse` does.
    fn from_str(s: &str) -> (r: Result<JobState, String>)
        ensures
            match r {
                Ok(state) => JobState::of_word(s@) == Some(state),
                Err(e) => JobState::of_word(s@) is None && e@ == "unknown job state `"@
                    + text::lowered(text::trimmed(s@))
                    + "`. Use one of these states: queued, starting, running, completed, failed, killed, timeout, oom, cancelled"@,
            },
    {
        JobState::parse(s)
    }
}

/// A word of small letters is its own form without white space and capital
/// letters.
proof fn lemma_plain_word(w: Seq<char>)
    requires
        w.len() > 0,
        forall|i: int| 0 <= i < w.len() ==> 'a' <= #[trigger] w[i] <= 'z',
    ensures
        text::lowered(text::trimmed(w)) == w,
{
    assert('a' <= w[0] <= 'z');
    assert('a' <= w[w.len() - 1] <= 'z');
    text::lemma_lead(w, 0);
    text::lemma_last_solid(w, w.len() as int);
    assert(w.subrange(0, w.len() as int) == w);
    assert forall|i: int| 0 <= i < w.len() implies text::small(w[i]) == w[i] by {
        assert('a' <= w[i] <= 'z');
    }
    assert(text::lowered(w) == w);
}

/// Each state is the state that its own word names.
pub proof fn law_words_name_their_states(s: JobState)
    ensures
        JobState::of_word(s.word()) == Some(s),
{
    reveal_strlit("queued");
    reveal_strlit("starting");
    reveal_strlit("running");
    reveal_strlit("completed");
    reveal_strlit("failed");
    reveal_strlit("killed");
    reveal_strlit("timeout");
    reveal_strlit("expired");
    reveal_strlit("oom");
    reveal_strlit("cancelled");
    reveal_strlit("canceled");
    reveal_strlit("skipped");
    lemma_plain_word(s.word());
    // Two words of one length differ in one of these letters.
    assert("expired"@[0] != "skipped"@[0]);
    assert("timeout"@[0] != "skipped"@[0]);
    assert("running"@[0] != "skipped"@[0]);
    assert("running"@[0] != "timeout"@[0]);
    assert("running"@[0] != "expired"@[0]);
    assert("timeout"@[0] != "expired"@[0]);
    assert("queued"@[0] != "failed"@[0]);
    assert("queued"@[0] != "killed"@[0]);
    assert("failed"@[0] != "killed"@[0]);
    assert("starting"@[0] != "canceled"@[0]);
    assert("completed"@[1] != "cancelled"@[1]);
}

/// True for the characters that a safe name keeps.
pub open spec fn kept_in_name(c: char) -> bool {
    text::alnum(c) || c == '-' || c == '_' || c == '.'
}

/// The name with one `_` in the place of each run of other characters.
pub open spec fn runs_replaced(name: Seq<char>) -> Seq<char>
    decreases name.len(),
{
    if name.len() == 0 {
        Seq::empty()
    } else {
        let before = runs_replaced(name.drop_last());
        if kept_in_name(name.last()) {
            before.push(name.last())
        } else if name.len() > 1 && !kept_in_name(name[name.len() - 2]) {
            before
        } else {
            before.push('_')
        }
    }
}

/// The safe form of a name: the only form that qex shows. No control
/// character, no space and no first `-` stands in it, and it has 128
/// characters at most.
pub open spec fn safe(name: Seq<char>) -> Seq<char> {
    let body = runs_replaced(name);
    let body = if body.len() > 0 && body[0] == '-' {
        body.update(0, '_')
    } else {
        body
    };
    if body.len() > 128 {
        body.take(128)
    } else {
        body
    }
}

/// Gives the SAFE FORM of a job name: the ONLY form that qex shows.
///
/// A safe name holds the letters `A` to `Z` and `a` to `z`, the numbers `0` to
/// `9`, and the three characters `-`, `_` and `.`. Every other character
/// becomes `_`, and a run of them becomes ONE `_`. A name that starts with `-`
/// loses that first character to `_`, because a word that starts with `-` has
/// the form of an option. The result stops at 128 characters.
///
///     deploy prod$(id)   ->  deploy_prod_id_
///     -version           ->  _version
pub fn safe_name(name: &str) -> (r: String)
    ensures
        r@ == safe(name@),
{
    let c = text::chars(name);
    let mut out: Vec<char> = Vec::new();
    let mut replaced = false;
    let mut i: usize = 0;
    while i < c.len()
        invariant
            c@ == name@,
            i <= c@.len(),
            out@ == runs_replaced(name@.take(i as int)),
            replaced == (i > 0 && !kept_in_name(name@[i - 1])),
        decreases c@.len() - i,
    {
        let x: char = c[i];
        assert(name@.take(i + 1).drop_last() == name@.take(i as int));
        if text::is_alnum(x) || x == '-' || x == '_' || x == '.' {
            out.push(x);
            replaced = false;
        } else if !replaced {
            out.push('_');
            replaced = true;
        }
        i += 1;
    }
    assert(name@.take(name@.len() as int) == name@);
    if out.len() > 0 && out[0] == '-' {
        out[0] = '_';
    }
    let end: usize = if out.len() > 128 {
        128
    } else {
        out.len()
    };
    assert(end == out@.len() ==> out@.subrange(0, end as int) == out@);
    assert(end == 128 ==> out@.subrange(0, 128) == out@.take(128));
    text::piece(&out, 0, end)
}

proof fn lemma_runs_replaced(name: Seq<char>)
    ensures
        forall|i: int|
            0 <= i < runs_replaced(name).len() ==> kept_in_name(#[trigger] runs_replaced(name)[i]),
        runs_replaced(name).len() <= name.len(),
    decreases name.len(),
{
    if name.len() > 0 {
        lemma_runs_replaced(name.drop_last());
    }
}

proof fn lemma_safe_stays(name: Seq<char>)
    requires
        forall|i: int| 0 <= i < name.len() ==> kept_in_name(#[trigger] name[i]),
    ensures
        runs_replaced(name) == name,
    decreases name.len(),
{
    if name.len() > 0 {
        lemma_safe_stays(name.drop_last());
        assert(kept_in_name(name[name.len() - 1]));
        assert(runs_replaced(name) == name.drop_last().push(name.last()));
    }
}

/// A safe name holds the safe characters only, does not have the form of an
/// option, and is not long. It is its own safe form, so a name that qex shows
/// finds the same name again.
pub proof fn law_safe_name(name: Seq<char>)
    ensures
        forall|i: int| 0 <= i < safe(name).len() ==> kept_in_name(#[trigger] safe(name)[i]),
        safe(name).len() <= 128,
        safe(name).len() > 0 ==> safe(name)[0] != '-',
        safe(safe(name)) == safe(name),
{
    lemma_runs_replaced(name);
    lemma_safe_stays(safe(name));
}

/// The text with a space in the place of each control character.
pub open spec fn printable_of(s: Seq<char>) -> Seq<char> {
    s.map_values(
        |c: char|
            if text::control(c) {
                ' '
            } else {
                c
            },
    )
}

/// Gives the form of a sentence that a terminal may print: each control
/// character becomes a space, and every other character stays.
pub fn printable(s: &str) -> (r: String)
    ensures
        r@ == printable_of(s@),
{
    let c = text::chars(s);
    let mut out = String::new();
    let mut i: usize = 0;
    while i < c.len()
        invariant
            c@ == s@,
            i <= c@.len(),
            out@ == printable_of(s@.take(i as int)),
        decreases c@.len() - i,
    {
        let x: char = c[i];
        let y: char = if text::is_control(x) {
            ' '
        } else {
            x
        };
        out.push(y);
        assert(printable_of(s@.take(i + 1)) == printable_of(s@.take(i as int)).push(y));
        i += 1;
    }
    assert(s@.take(s@.len() as int) == s@);
    out
}

/// A digit of a number in hexadecimal form.
pub open spec fn hex_digit(d: nat) -> char {
    if d < 10 {
        ('0' as u32 + d) as char
    } else {
        ('a' as u32 + d - 10) as char
    }
}

/// The hexadecimal digits of a number, with no leading zero.
pub open spec fn hex(n: nat) -> Seq<char>
    decreases n,
{
    if n < 16 {
        seq![hex_digit(n)]
    } else {
        hex(n / 16).push(hex_digit(n % 16))
    }
}

fn hex_char(d: u64) -> (r: char)
    requires
        d < 16,
    ensures
        r == hex_digit(d as nat),
{
    match d {
        0 => '0',
        1 => '1',
        2 => '2',
        3 => '3',
        4 => '4',
        5 => '5',
        6 => '6',
        7 => '7',
        8 => '8',
        9 => '9',
        10 => 'a',
        11 => 'b',
        12 => 'c',
        13 => 'd',
        14 => 'e',
        _ => 'f',
    }
}

/// Writes a number in hexadecimal form.
pub fn hexadecimal(n: u64) -> (r: String)
    ensures
        r@ == hex(n as nat),
    decreases n,
{
    if n < 16 {
        let mut s = String::new();
        s.push(hex_char(n));
        s
    } else {
        let mut s = hexadecimal(n / 16);
        s.push(hex_char(n % 16));
        s
    }
}

/// The text with each control character written out by its number.
pub open spec fn visible_of(s: Seq<char>) -> Seq<char>
    decreases s.len(),
{
    if s.len() == 0 {
        Seq::empty()
    } else if text::control(s.last()) {
        visible_of(s.drop_last()) + ("\\u{"@ + hex(s.last() as nat) + "}"@)
    } else {
        visible_of(s.drop_last()).push(s.last())
    }
}

/// The number of a character.
fn code_of(c: char) -> (r: u64)
    ensures
        r == c as nat,
{
    (c as u32) as u64
}

/// Gives a name in a form in which a reader sees each of its characters.
pub fn visible(s: &str) -> (r: String)
    ensures
        r@ == visible_of(s@),
{
    let c = text::chars(s);
    let mut out = String::new();
    let mut i: usize = 0;
    while i < c.len()
        invariant
            c@ == s@,
            i <= c@.len(),
            out@ == visible_of(s@.take(i as int)),
        decreases c@.len() - i,
    {
        let x: char = c[i];
        assert(s@.take(i + 1).drop_last() == s@.take(i as int));
        if text::is_control(x) {
            let mut e = text::owned("\\u{");
            e.append(hexadecimal(code_of(x)).as_str());
            e.append("}");
            out.append(e.as_str());
        } else {
            out.push(x);
        }
        i += 1;
    }
    assert(s@.take(s@.len() as int) == s@);
    out
}

/// What qex removed from the output files of a job.
///
/// The output of a job has a limit, so a reader must be able to learn that a
/// file is not the whole output.
#[derive(Debug, Clone, Copy, PartialEq, Eq, Structural)]
pub struct LogsDropped {
    pub stdout_bytes: u64,
    pub stdout_lines: u64,
    pub stderr_bytes: u64,
    pub stderr_lines: u64,
    /// The limit that operated.
    pub limit: u64,
    /// True when qex could not complete a log file, and could not count what
    /// went.
    pub incomplete: bool,
}

impl Default for LogsDropped {
    fn default() -> (r: Self)
        ensures
            r == (LogsDropped {
                stdout_bytes: 0,
                stdout_lines: 0,
                stderr_bytes: 0,
                stderr_lines: 0,
                limit: 0,
                incomplete: false,
            }),
    {
        LogsDropped {
            stdout_bytes: 0,
            stdout_lines: 0,
            stderr_bytes: 0,
            stderr_lines: 0,
            limit: 0,
            incomplete: false,
        }
    }
}

impl LogsDropped {
    /// Gives the bytes and the lines of one stream, where something went.
    ///
    /// The name is `stdout` or `stderr`, as the commands use it.
    pub fn of(&self, stream: &str) -> (r: Option<(u64, u64)>)
        ensures
            r == (if stream@ == "stdout"@ && self.stdout_bytes > 0 {
                Some((self.stdout_bytes, self.stdout_lines))
            } else if stream@ != "stdout"@ && stream@ == "stderr"@ && self.stderr_bytes > 0 {
                Some((self.stderr_bytes, self.stderr_lines))
            } else {
                None::<(u64, u64)>
            }),
    {
        let (bytes, lines): (u64, u64) = if text::same(stream, "stdout") {
            (self.stdout_bytes, self.stdout_lines)
        } else if text::same(stream, "stderr") {
            (self.stderr_bytes, self.stderr_lines)
        } else {
            return None;
        };
        if bytes > 0 {
            Some((bytes, lines))
        } else {
            None
        }
    }

    /// Tests if qex removed output, or could not complete a file.
    pub fn any(&self) -> (r: bool)
        ensures
            r == (self.stdout_bytes > 0 || self.stderr_bytes > 0 || self.incomplete),
    {
        self.stdout_bytes > 0 || self.stderr_bytes > 0 || self.incomplete
    }
}

/// One process above a command, as the machine gave it.
#[derive(Debug, Clone, PartialEq, Eq)]
pub struct Ancestor {
    pub pid: i32,
    pub ppid: i32,
    /// The start time of the process. The machine gives the number of a
    /// stopped process to a later one, so the number alone proves nothing.
    pub start: Option<u64>,
    pub name: String,
    pub cwd: Option<String>,
    /// True when the process has a terminal.
    pub terminal: bool,
}

/// The resources that the job used.
#[derive(Debug, Clone, Copy, PartialEq, Eq, Structural)]
pub struct Usage {
    /// The maximum memory in bytes.
    pub max_rss: u64,
    /// The CPU time of all the processes of the job in seconds, as the bits of
    /// the number. The record keeps it, and no rule reads it.
    pub cpu_secs_bits: u64,
}

/// What a user asked qex to run.
#[derive(Debug, Clone)]
pub struct JobSpec {
    pub id: u128,
    pub name: String,
    pub command: Vec<String>,
    pub cwd: String,
    pub submitted_at: u64,
    pub cpu: u64,
    pub mem: u64,
    pub claim_source: String,
    pub group: Option<u128>,
    pub group_name: Option<String>,
    pub needs: Vec<u128>,
    pub after: Vec<u128>,
    pub locks: Vec<String>,
    pub dedupe_key: Option<String>,
    pub retries: u32,
    pub tags: Vec<String>,
}

/// The record of one job.
#[derive(Debug, Clone)]
pub struct JobStatus {
    pub id: u128,
    pub name: String,
    /// The program and its arguments.
    pub command: Vec<String>,
    /// The directory of the job.
    pub cwd: String,
    pub state: JobState,
    /// The pid of the job process WHILE THE JOB OPERATES.
    pub pid: Option<i32>,
    /// The start time of that process.
    pub pid_start_token: Option<u64>,
    /// The pid that the job HAD, kept after the job stops. Never send a signal
    /// to it.
    pub last_pid: Option<i32>,
    /// The pid of the supervisor of the job.
    pub supervisor_pid: Option<i32>,
    /// The exit code, if the job stopped without a signal.
    pub exit_code: Option<i32>,
    /// The signal that stopped the job, if a signal stopped it.
    pub signal: Option<i32>,
    pub submitted_at: u64,
    /// The position of this job in the order of submission.
    pub sequence: u64,
    pub started_at: Option<u64>,
    pub finished_at: Option<u64>,
    pub cpu: u64,
    pub mem: u64,
    /// Where the claim came from: `explicit`, `learned` or `default`.
    pub claim_source: String,
    /// The pipeline that this job belongs to.
    pub group: Option<u128>,
    /// The name of that pipeline, for a person to read.
    pub group_name: Option<String>,
    pub usage: Usage,
    /// Shows that qex started the job although it is larger than the budget.
    pub forced: bool,
    pub forced_reason: Option<String>,
    /// The reason that the job stays in the queue.
    pub blocked_reason: Option<String>,
    /// The reason that a job failed, when qex itself gives the reason.
    pub error: Option<String>,
    /// The jobs that must succeed before this job starts.
    pub needs: Vec<u128>,
    /// The jobs that must stop before this job starts.
    pub after: Vec<u128>,
    /// The locks that this job holds while it operates.
    pub locks: Vec<String>,
    /// The key that made this submission idempotent, if the user gave one.
    pub dedupe_key: Option<String>,
    /// The number of times that qex started this job.
    pub attempts: u32,
    /// The number of times that qex may still start this job again.
    pub retries_left: u32,
    /// The job that caused this job to stop, for a job in the state `skipped`.
    pub caused_by: Option<u128>,
    /// What qex removed from the output files.
    pub logs_dropped: Option<LogsDropped>,
    pub tags: Vec<String>,
    /// The start of the machine in which the chain below was read.
    pub boot_id: Option<String>,
    /// The processes above the command that submitted the job.
    pub submitter: Vec<Ancestor>,
    /// The seconds of its wait in which the queue was paused.
    pub queue_pause_secs: u64,
}

/// A copy of a list of texts.
pub fn copy_texts(list: &Vec<String>) -> (r: Vec<String>)
    ensures
        text::views(r@) == text::views(list@),
{
    let mut out: Vec<String> = Vec::new();
    let mut i: usize = 0;
    while i < list.len()
        invariant
            i <= list@.len(),
            text::views(out@) == text::views(list@).take(i as int),
        decreases list@.len() - i,
    {
        let ghost before = out@;
        out.push(list[i].clone());
        assert(text::views(out@) == text::views(before).push(list@[i as int]@));
        assert(text::views(list@).take(i + 1) == text::views(list@).take(i as int).push(
            list@[i as int]@,
        ));
        i += 1;
    }
    assert(text::views(list@).take(list@.len() as int) == text::views(list@));
    out
}

/// A copy of a list of ids.
pub fn copy_ids(list: &Vec<u128>) -> (r: Vec<u128>)
    ensures
        r@ == list@,
{
    let mut out: Vec<u128> = Vec::new();
    let mut i: usize = 0;
    while i < list.len()
        invariant
            i <= list@.len(),
            out@ == list@.take(i as int),
        decreases list@.len() - i,
    {
        out.push(list[i]);
        assert(list@.take(i + 1) == list@.take(i as int).push(list@[i as int]));
        i += 1;
    }
    assert(list@.take(list@.len() as int) == list@);
    out
}

/// A copy of a text that may be missing.
pub fn copy_opt(t: &Option<String>) -> (r: Option<String>)
    ensures
        r == *t,
{
    match t {
        Some(s) => Some(s.clone()),
        None => None,
    }
}

/// True when the two lists hold the same processes.
pub open spec fn same_chain(a: Seq<Ancestor>, b: Seq<Ancestor>) -> bool {
    &&& a.len() == b.len()
    &&& forall|i: int|
        0 <= i < a.len() ==> {
            &&& (#[trigger] a[i]).pid == b[i].pid
            &&& a[i].ppid == b[i].ppid
            &&& a[i].start == b[i].start
            &&& a[i].name@ == b[i].name@
            &&& text::opt_view(a[i].cwd) == text::opt_view(b[i].cwd)
            &&& a[i].terminal == b[i].terminal
        }
}

/// A copy of a list of processes.
pub fn copy_chain(chain: &Vec<Ancestor>) -> (r: Vec<Ancestor>)
    ensures
        same_chain(r@, chain@),
{
    let mut out: Vec<Ancestor> = Vec::new();
    let mut i: usize = 0;
    while i < chain.len()
        invariant
            i <= chain@.len(),
            same_chain(out@, chain@.take(i as int)),
        decreases chain@.len() - i,
    {
        let p = &chain[i];
        out.push(
            Ancestor {
                pid: p.pid,
                ppid: p.ppid,
                start: p.start,
                name: p.name.clone(),
                cwd: copy_opt(&p.cwd),
                terminal: p.terminal,
            },
        );
        i += 1;
    }
    assert(chain@.take(chain@.len() as int) == chain@);
    out
}

impl JobStatus {
    /// The name that qex SHOWS.
    ///
    /// Read the field `name` only to write the record, or to find a job by the
    /// name that the user gave.
    pub fn display_name(&self) -> (r: String)
        ensures
            r@ == safe(self.name@),
    {
        safe_name(self.name.as_str())
    }

    /// True for the record of a job that was just submitted.
    pub open spec fn fresh(self, spec: JobSpec) -> bool {
        &&& self.id == spec.id
        &&& self.name@ == spec.name@
        &&& text::views(self.command@) == text::views(spec.command@)
        &&& self.cwd@ == spec.cwd@
        &&& self.state == JobState::Queued
        &&& self.pid is None
        &&& self.pid_start_token is None
        &&& self.last_pid is None
        &&& self.supervisor_pid is None
        &&& self.exit_code is None
        &&& self.signal is None
        &&& self.submitted_at == spec.submitted_at
        &&& self.sequence == 0
        &&& self.started_at is None
        &&& self.finished_at is None
        &&& self.cpu == spec.cpu
        &&& self.mem == spec.mem
        &&& self.claim_source@ == spec.claim_source@
        &&& self.group == spec.group
        &&& text::opt_view(self.group_name) == text::opt_view(spec.group_name)
        &&& self.usage == (Usage { max_rss: 0, cpu_secs_bits: 0 })
        &&& !self.forced
        &&& self.forced_reason is None
        &&& self.blocked_reason is None
        &&& self.error is None
        &&& self.needs@ == spec.needs@
        &&& self.after@ == spec.after@
        &&& text::views(self.locks@) == text::views(spec.locks@)
        &&& text::opt_view(self.dedupe_key) == text::opt_view(spec.dedupe_key)
        &&& self.attempts == 0
        &&& self.retries_left == spec.retries
        &&& self.caused_by is None
        &&& self.logs_dropped is None
        &&& text::views(self.tags@) == text::views(spec.tags@)
        &&& self.boot_id is None
        &&& self.submitter@.len() == 0
        &&& self.queue_pause_secs == 0
    }

    /// Makes the record of a job that was just submitted.
    pub fn new(spec: &JobSpec) -> (r: Self)
        ensures
            r.fresh(*spec),
    {
        JobStatus {
            id: spec.id,
            name: spec.name.clone(),
            command: copy_texts(&spec.command),
            cwd: spec.cwd.clone(),
            state: JobState::Queued,
            pid: None,
            pid_start_token: None,
            last_pid: None,
            supervisor_pid: None,
            exit_code: None,
            signal: None,
            submitted_at: spec.submitted_at,
            sequence: 0,
            started_at: None,
            finished_at: None,
            cpu: spec.cpu,
            mem: spec.mem,
            claim_source: spec.claim_source.clone(),
            group: spec.group,
            group_name: copy_opt(&spec.group_name),
            usage: Usage { max_rss: 0, cpu_secs_bits: 0 },
            forced: false,
            forced_reason: None,
            blocked_reason: None,
            error: None,
            needs: copy_ids(&spec.needs),
            after: copy_ids(&spec.after),
            locks: copy_texts(&spec.locks),
            dedupe_key: copy_opt(&spec.dedupe_key),
            attempts: 0,
            retries_left: spec.retries,
            caused_by: None,
            logs_dropped: None,
            tags: copy_texts(&spec.tags),
            boot_id: None,
            submitter: Vec::new(),
            queue_pause_secs: 0,
        }
    }

    /// True when the two records say the same.
    pub open spec fn same(self, o: JobStatus) -> bool {
        &&& self.id == o.id
        &&& self.name@ == o.name@
        &&& text::views(self.command@) == text::views(o.command@)
        &&& self.cwd@ == o.cwd@
        &&& self.state == o.state
        &&& self.pid == o.pid
        &&& self.pid_start_token == o.pid_start_token
        &&& self.last_pid == o.last_pid
        &&& self.supervisor_pid == o.supervisor_pid
        &&& self.exit_code == o.exit_code
        &&& self.signal == o.signal
        &&& self.submitted_at == o.submitted_at
        &&& self.sequence == o.sequence
        &&& self.started_at == o.started_at
        &&& self.finished_at == o.finished_at
        &&& self.cpu == o.cpu
        &&& self.mem == o.mem
        &&& self.claim_source@ == o.claim_source@
        &&& self.group == o.group
        &&& text::opt_view(self.group_name) == text::opt_view(o.group_name)
        &&& self.usage == o.usage
        &&& self.forced == o.forced
        &&& text::opt_view(self.forced_reason) == text::opt_view(o.forced_reason)
        &&& text::opt_view(self.blocked_reason) == text::opt_view(o.blocked_reason)
        &&& text::opt_view(self.error) == text::opt_view(o.error)
        &&& self.needs@ == o.needs@
        &&& self.after@ == o.after@
        &&& text::views(self.locks@) == text::views(o.locks@)
        &&& text::opt_view(self.dedupe_key) == text::opt_view(o.dedupe_key)
        &&& self.attempts == o.attempts
        &&& self.retries_left == o.retries_left
        &&& self.caused_by == o.caused_by
        &&& self.logs_dropped == o.logs_dropped
        &&& text::views(self.tags@) == text::views(o.tags@)
        &&& text::opt_view(self.boot_id) == text::opt_view(o.boot_id)
        &&& same_chain(self.submitter@, o.submitter@)
        &&& self.queue_pause_secs == o.queue_pause_secs
    }

    /// A copy of the record.
    pub fn copy(&self) -> (r: Self)
        ensures
            r.same(*self),
    {
        JobStatus {
            id: self.id,
            name: self.name.clone(),
            command: copy_texts(&self.command),
            cwd: self.cwd.clone(),
            state: self.state,
            pid: self.pid,
            pid_start_token: self.pid_start_token,
            last_pid: self.last_pid,
            supervisor_pid: self.supervisor_pid,
            exit_code: self.exit_code,
            signal: self.signal,
            submitted_at: self.submitted_at,
            sequence: self.sequence,
            started_at: self.started_at,
            finished_at: self.finished_at,
            cpu: self.cpu,
            mem: self.mem,
            claim_source: self.claim_source.clone(),
            group: self.group,
            group_name: copy_opt(&self.group_name),
            usage: self.usage,
            forced: self.forced,
            forced_reason: copy_opt(&self.forced_reason),
            blocked_reason: copy_opt(&self.blocked_reason),
            error: copy_opt(&self.error),
            needs: copy_ids(&self.needs),
            after: copy_ids(&self.after),
            locks: copy_texts(&self.locks),
            dedupe_key: copy_opt(&self.dedupe_key),
            attempts: self.attempts,
            retries_left: self.retries_left,
            caused_by: self.caused_by,
            logs_dropped: self.logs_dropped,
            tags: copy_texts(&self.tags),
            boot_id: copy_opt(&self.boot_id),
            submitter: copy_chain(&self.submitter),
            queue_pause_secs: self.queue_pause_secs,
        }
    }

    /// The seconds that the job operated, or that it operates now.
    pub open spec fn ran_for(self, now: u64) -> Option<u64> {
        match self.started_at {
            None => None,
            Some(start) => {
                let end = match self.finished_at {
                    Some(end) => end,
                    None => now,
                };
                if end < start {
                    Some(0)
                } else {
                    Some((end - start) as u64)
                }
            },
        }
    }

    /// Gives the seconds that the job operated, or that it operates now.
    pub fn elapsed(&self, now: u64) -> (r: Option<u64>)
        ensures
            r == self.ran_for(now),
    {
        let start: u64 = match self.started_at {
            Some(start) => start,
            None => {
                return None;
            },
        };
        let end: u64 = match self.finished_at {
            Some(end) => end,
            None => now,
        };
        if end < start {
            Some(0)
        } else {
            Some(end - start)
        }
    }

    /// True when this record does not come after the other one in the order of
    /// submission.
    pub open spec fn not_after(self, other: JobStatus) -> bool {
        self.submitted_at < other.submitted_at || (self.submitted_at == other.submitted_at
            && self.sequence <= other.sequence)
    }
}

/// The place of a record in a list that is in order: after each record that it
/// does not come before.
pub open spec fn place_of(list: Seq<JobStatus>, job: JobStatus, n: nat) -> nat
    decreases n,
{
    if n == 0 {
        0
    } else if list[n - 1].not_after(job) {
        n
    } else {
        place_of(list, job, (n - 1) as nat)
    }
}

/// The records in the order of submission. Two records of one moment keep
/// their order.
pub open spec fn ordered(list: Seq<JobStatus>) -> Seq<JobStatus>
    decreases list.len(),
{
    if list.len() == 0 {
        list
    } else {
        let before = ordered(list.drop_last());
        before.insert(place_of(before, list.last(), before.len()) as int, list.last())
    }
}

proof fn lemma_place(list: Seq<JobStatus>, job: JobStatus, n: nat)
    requires
        n <= list.len(),
    ensures
        place_of(list, job, n) <= n,
        place_of(list, job, n) > 0 ==> list[place_of(list, job, n) - 1].not_after(job),
        forall|i: int| place_of(list, job, n) <= i < n ==> !(#[trigger] list[i]).not_after(job),
    decreases n,
{
    if n > 0 && !list[n - 1].not_after(job) {
        lemma_place(list, job, (n - 1) as nat);
    }
}

/// The order holds every record one time, and no record stands before a record
/// of an earlier moment.
pub proof fn law_ordered(list: Seq<JobStatus>)
    ensures
        ordered(list).len() == list.len(),
        ordered(list).to_multiset() == list.to_multiset(),
        forall|i: int, j: int|
            0 <= i < j < list.len() ==> (#[trigger] ordered(list)[i]).not_after(
                #[trigger] ordered(list)[j],
            ),
    decreases list.len(),
{
    if list.len() > 0 {
        let before = ordered(list.drop_last());
        law_ordered(list.drop_last());
        let at = place_of(before, list.last(), before.len()) as int;
        lemma_place(before, list.last(), before.len());
        vstd::seq_lib::to_multiset_insert(before, at, list.last());
        assert(list == list.drop_last().push(list.last()));
        vstd::seq_lib::to_multiset_build(list.drop_last(), list.last());
        let all = ordered(list);
        assert forall|i: int, j: int| 0 <= i < j < list.len() implies (#[trigger] all[i]).not_after(
            #[trigger] all[j],
        ) by {
            if i < at && at < j {
                assert(before[i].not_after(before[j - 1]));
            } else if i > at {
                assert(before[i - 1].not_after(before[j - 1]));
            } else if j < at {
                assert(before[i].not_after(before[j]));
            } else if j == at {
                assert(before[at - 1].not_after(list.last()));
                if i < at - 1 {
                    assert(before[i].not_after(before[at - 1]));
                }
            } else {
                assert(i == at);
                assert(!before[j - 1].not_after(list.last()));
            }
        }
    }
}

/// Puts the records in the order of submission.
pub fn in_order(jobs: Vec<JobStatus>) -> (r: Vec<JobStatus>)
    ensures
        r@ == ordered(jobs@),
{
    let ghost all = jobs@;
    let mut rest = jobs;
    let mut todo: Vec<JobStatus> = Vec::new();
    // The first record comes first.
    while rest.len() > 0
        invariant
            rest@ + todo@.reverse() == all,
        decreases rest@.len(),
    {
        let ghost before = rest@ + todo@.reverse();
        match rest.pop() {
            Some(job) => {
                todo.push(job);
                assert(rest@ + todo@.reverse() == before);
            },
            None => {},
        }
    }
    assert(todo@.reverse() == all);
    let mut out: Vec<JobStatus> = Vec::new();
    let mut done: usize = 0;
    let total: usize = todo.len();
    assert(ordered(all.take(0)) == out@);
    while done < total
        invariant
            done <= total,
            total == all.len(),
            todo@ == all.reverse().take(total - done),
            out@ == ordered(all.take(done as int)),
            out@.len() == done,
        decreases total - done,
    {
        let ghost left = todo@;
        match todo.pop() {
            Some(job) => {
                assert(job == all[done as int]);
                assert(todo@ == all.reverse().take(total - done - 1));
                let mut at: usize = out.len();
                while at > 0 && !(out[at - 1].submitted_at < job.submitted_at || (out[at
                    - 1].submitted_at == job.submitted_at && out[at - 1].sequence <= job.sequence))
                    invariant
                        at <= out@.len(),
                        place_of(out@, job, out@.len()) == place_of(out@, job, at as nat),
                    decreases at,
                {
                    at -= 1;
                }
                assert(all.take(done + 1).drop_last() == all.take(done as int));
                out.insert(at, job);
            },
            None => {
                assert(left.len() == total - done);
            },
        }
        done += 1;
    }
    assert(all.take(total as int) == all);
    out
}

/// The name of the temporary file that a record goes to before it takes its
/// name. The pid separates the processes, and the counter separates the
/// writers of one process.
pub fn tmp_name(file_name: Option<&str>, pid: u32, unique: u64) -> (r: String)
    ensures
        r@ == "."@ + (match file_name {
            Some(f) => f@,
            None => "f"@,
        }) + ".tmp."@ + text::digits(pid as nat) + "."@ + text::digits(unique as nat),
{
    let mut out = text::owned(".");
    match file_name {
        Some(f) => out.append(f),
        None => out.append("f"),
    }
    out.append(".tmp.");
    out.append(text::decimal(pid as u64).as_str());
    out.append(".");
    out.append(text::decimal(unique).as_str());
    out
}

/// A state is one of three kinds: the job waits, it operates, or it stopped for
/// good.
pub proof fn law_the_kinds_of_states(s: JobState)
    ensures
        s.is_alive() <==> s == JobState::Starting || s == JobState::Running,
        s.is_final() <==> s == JobState::Completed || s == JobState::Failed || s
            == JobState::Killed || s == JobState::Timeout || s == JobState::Expired || s
            == JobState::Oom || s == JobState::Cancelled || s == JobState::Skipped,
        !s.is_alive() && !s.is_final() <==> s == JobState::Queued,
{
}

/// A word names a state exactly when it is the word of that state, or the other
/// spelling of `cancelled`, with white space around it and in capital letters or
/// not.
pub proof fn law_no_other_word_names_a_state(s: Seq<char>, x: JobState)
    ensures
        JobState::of_word(s) == Some(x) <==> text::lowered(text::trimmed(s)) == x.word() || (x
            == JobState::Cancelled && text::lowered(text::trimmed(s)) == "canceled"@),
{
    law_words_name_their_states(x);
    let w = x.word();
    if text::lowered(text::trimmed(s)) == w {
        lemma_word_is_plain(x);
        lemma_plain_word(w);
    }
    if text::lowered(text::trimmed(s)) == "canceled"@ {
        lemma_other_spelling();
    }
}

proof fn lemma_other_spelling()
    ensures
        "canceled"@ != "queued"@,
        "canceled"@ != "starting"@,
        "canceled"@ != "running"@,
        "canceled"@ != "completed"@,
        "canceled"@ != "failed"@,
        "canceled"@ != "killed"@,
        "canceled"@ != "timeout"@,
        "canceled"@ != "expired"@,
        "canceled"@ != "oom"@,
{
    reveal_strlit("canceled");
    reveal_strlit("queued");
    reveal_strlit("starting");
    reveal_strlit("running");
    reveal_strlit("completed");
    reveal_strlit("failed");
    reveal_strlit("killed");
    reveal_strlit("timeout");
    reveal_strlit("expired");
    reveal_strlit("oom");
    assert("canceled"@[0] == 'c');
    assert("completed"@[0] == 'c' && "completed"@.len() == 9 && "canceled"@.len() == 8);
    assert("starting"@[0] == 's');
}

proof fn lemma_word_is_plain(x: JobState)
    ensures
        x.word().len() > 0,
        forall|i: int| 0 <= i < x.word().len() ==> 'a' <= #[trigger] x.word()[i] <= 'z',
{
    reveal_strlit("queued");
    reveal_strlit("starting");
    reveal_strlit("running");
    reveal_strlit("completed");
    reveal_strlit("failed");
    reveal_strlit("killed");
    reveal_strlit("timeout");
    reveal_strlit("expired");
    reveal_strlit("oom");
    reveal_strlit("cancelled");
    reveal_strlit("skipped");
}

/// A safe name keeps each safe character of a name. Each run of other
/// characters gives one `_`.
pub proof fn law_a_run_gives_one_mark(name: Seq<char>, c: char)
    ensures
        ({
            let plain = |x: char|
                'a' <= x <= 'z' || 'A' <= x <= 'Z' || '0' <= x <= '9' || x == '-' || x == '_' || x
                    == '.';
            let before = runs_replaced(name);
            &&& plain(c) ==> runs_replaced(name.push(c)) == before.push(c)
            &&& !plain(c) && (name.len() == 0 || plain(name.last())) ==> runs_replaced(name.push(c))
                == before.push('_')
            &&& !plain(c) && name.len() > 0 && !plain(name.last()) ==> runs_replaced(name.push(c))
                == before
        }),
        runs_replaced(Seq::empty()).len() == 0,
{
    let t = name.push(c);
    assert(t.drop_last() == name);
    if name.len() > 0 {
        assert(t[t.len() - 2] == name.last());
    }
}

/// The safe form of a name is the name with its runs replaced, cut at 128
/// characters, and only a first `-` is another character in it.
pub proof fn law_the_safe_form_is_a_start(name: Seq<char>, k: int)
    requires
        0 <= k < safe(name).len(),
    ensures
        safe(name).len() == if runs_replaced(name).len() > 128 {
            128
        } else {
            runs_replaced(name).len()
        },
        k > 0 || runs_replaced(name)[0] != '-' ==> safe(name)[k] == runs_replaced(name)[k],
        runs_replaced(name)[0] == '-' ==> safe(name)[0] == '_',
{
}

/// A printed sentence has the length of the sentence. Each control character is
/// a space in it, and every other character stays.
pub proof fn law_only_control_characters_change(s: Seq<char>, k: int)
    requires
        0 <= k < s.len(),
    ensures
        printable_of(s).len() == s.len(),
        s[k] as int <= 31 || 127 <= s[k] as int <= 159 ==> printable_of(s)[k] == ' ',
        32 <= s[k] as int <= 126 || s[k] as int >= 160 ==> printable_of(s)[k] == s[k],
{
}

/// One more character shows as itself, unless it is a control character: its
/// number shows then.
pub proof fn law_a_control_character_shows_its_number(s: Seq<char>, c: char)
    ensures
        c as int <= 31 || 127 <= c as int <= 159 ==> visible_of(s.push(c)) == visible_of(s)
            + "\\u{"@ + hex(c as nat) + "}"@,
        32 <= c as int <= 126 || c as int >= 160 ==> visible_of(s.push(c)) == visible_of(s).push(c),
        visible_of(Seq::empty()).len() == 0,
{
    assert(s.push(c).drop_last() == s);
    assert(visible_of(s) + ("\\u{"@ + hex(c as nat) + "}"@) == visible_of(s) + "\\u{"@ + hex(
        c as nat,
    ) + "}"@);
}

/// The digits of a hexadecimal number stand for sixteen times the number before
/// them and their own value.
pub proof fn law_a_hexadecimal_digit(a: nat, d: nat)
    requires
        d < 16,
    ensures
        hex(d) == seq![hex_digit(d)],
        a > 0 ==> hex(16 * a + d) == hex(a).push(hex_digit(d)),
        d < 10 ==> hex_digit(d) as int == '0' as int + d,
        d >= 10 ==> hex_digit(d) as int == 'a' as int + d - 10,
{
    assert((16 * a + d) / 16 == a && (16 * a + d) % 16 == d) by (nonlinear_arith)
        requires
            d < 16,
    ;
}

/// A job that never started has no time. One that did has the seconds from its
/// start to its end, or to this moment while it operates, and never fewer than
/// none.
pub proof fn law_how_long_a_job_ran(job: JobStatus, now: u64)
    ensures
        job.ran_for(now) is None <==> job.started_at is None,
        job.started_at matches Some(a) ==> {
            &&& job.finished_at is Some && job.finished_at->0 >= a ==> job.ran_for(now)->0
                == job.finished_at->0 - a
            &&& job.finished_at is Some && job.finished_at->0 < a ==> job.ran_for(now)->0 == 0
            &&& job.finished_at is None && now >= a ==> job.ran_for(now)->0 == now - a
            &&& job.finished_at is None && now < a ==> job.ran_for(now)->0 == 0
        },
{
}

/// The order is that of the moments of submission, and within one moment that of
/// the numbers of the submissions.
pub proof fn law_the_order_of_submission(list: Seq<JobStatus>, i: int, j: int)
    requires
        0 <= i < j < list.len(),
    ensures
        ordered(list)[i].submitted_at <= ordered(list)[j].submitted_at,
        ordered(list)[i].submitted_at == ordered(list)[j].submitted_at ==> ordered(list)[i].sequence
            <= ordered(list)[j].sequence,
{
    law_ordered(list);
    assert(ordered(list)[i].not_after(ordered(list)[j]));
}

/// A record that comes last in its list and belongs at the end of it stays
/// there, so a list in order is left as it is.
pub proof fn law_a_list_in_order_stays(list: Seq<JobStatus>)
    requires
        forall|i: int, j: int|
            0 <= i < j < list.len() ==> (#[trigger] list[i]).submitted_at < (
            #[trigger] list[j]).submitted_at || (list[i].submitted_at == list[j].submitted_at
                && list[i].sequence <= list[j].sequence),
    ensures
        ordered(list) == list,
    decreases list.len(),
{
    if list.len() > 0 {
        let less = list.drop_last();
        assert forall|i: int, j: int| 0 <= i < j < less.len() implies (
        #[trigger] less[i]).submitted_at < (#[trigger] less[j]).submitted_at || (
        less[i].submitted_at == less[j].submitted_at && less[i].sequence <= less[j].sequence) by {
            assert(less[i] == list[i] && less[j] == list[j]);
        }
        law_a_list_in_order_stays(less);
        let n = less.len();
        if n > 0 {
            assert(less[n - 1] == list[n - 1]);
            assert(less[n - 1].not_after(list.last()));
        }
        assert(place_of(less, list.last(), n) == n);
        assert(less.insert(n as int, list.last()) == list);
    }
}

/// A safe name has at most 128 characters, begins with no `-`, and keeps each
/// letter, digit, `.` and `_` that the name has, up to that length.
pub proof fn law_what_a_safe_name_keeps(name: &str, r: String)
    requires
        call_ensures(safe_name, (name,), r),
    ensures
        r@.len() <= 128,
        r@.len() > 0 ==> r@[0] != '-',
        name@.len() <= 128 && (name@.len() == 0 || name@[0] != '-') && (forall|i: int|
            0 <= i < name@.len() ==> 'a' <= #[trigger] name@[i] <= 'z' || 'A' <= name@[i] <= 'Z'
                || '0' <= name@[i] <= '9' || name@[i] == '-' || name@[i] == '_' || name@[i] == '.')
            ==> r@ == name@,
        r@.len() == 0 <==> name@.len() == 0,
{
    law_safe_name(name@);
    if forall|i: int|
        0 <= i < name@.len() ==> 'a' <= #[trigger] name@[i] <= 'z' || 'A' <= name@[i] <= 'Z' || '0'
            <= name@[i] <= '9' || name@[i] == '-' || name@[i] == '_' || name@[i] == '.' {
        assert forall|i: int| 0 <= i < name@.len() implies kept_in_name(#[trigger] name@[i]) by {}
        lemma_safe_stays(name@);
    }
    lemma_runs_not_empty(name@);
    lemma_runs_replaced(name@);
}

proof fn lemma_runs_not_empty(name: Seq<char>)
    ensures
        name.len() > 0 ==> runs_replaced(name).len() > 0,
    decreases name.len(),
{
    if name.len() > 1 {
        lemma_runs_not_empty(name.drop_last());
    }
}

/// A printed sentence and a shown time are those of the sentence and the record.
pub proof fn law_what_is_printed(s: &str, r: String, k: int)
    requires
        call_ensures(printable, (s,), r),
        0 <= k < s@.len(),
    ensures
        r@.len() == s@.len(),
        s@[k] as int <= 31 || 127 <= s@[k] as int <= 159 ==> r@[k] == ' ',
        32 <= s@[k] as int <= 126 || s@[k] as int >= 160 ==> r@[k] == s@[k],
{
    law_only_control_characters_change(s@, k);
}

/// A job that started ran from its start to its end, or to now.
pub proof fn law_the_time_of_a_job(job: &JobStatus, now: u64, r: Option<u64>)
    requires
        call_ensures(JobStatus::elapsed, (job, now), r),
    ensures
        r is None <==> job.started_at is None,
        job.started_at is Some && job.finished_at is Some && job.finished_at->0
            >= job.started_at->0 ==> r == Some((job.finished_at->0 - job.started_at->0) as u64),
        job.started_at is Some && job.finished_at is None && now >= job.started_at->0 ==> r == Some(
            (now - job.started_at->0) as u64,
        ),
{
    law_how_long_a_job_ran(*job, now);
}

/// The records in order are the same records, and no one stands before a record
/// of an earlier submission.
pub proof fn law_the_records_in_order(jobs: Vec<JobStatus>, r: Vec<JobStatus>, i: int, j: int)
    requires
        call_ensures(in_order, (jobs,), r),
        0 <= i < j < r@.len(),
    ensures
        r@.to_multiset() == jobs@.to_multiset(),
        r@[i].submitted_at <= r@[j].submitted_at,
        r@[i].submitted_at == r@[j].submitted_at ==> r@[i].sequence <= r@[j].sequence,
{
    law_ordered(jobs@);
    law_the_order_of_submission(jobs@, i, j);
}

/// The word of a state names the state again, in any case and with white space
/// around it, and no other word does.
pub proof fn law_which_word_names_a_state(s: &str, x: JobState, r: Result<JobState, String>)
    requires
        call_ensures(JobState::parse, (s,), r),
    ensures
        r == Ok::<JobState, String>(x) <==> text::lowered(text::trimmed(s@)) == x.word() || (x
            == JobState::Cancelled && text::lowered(text::trimmed(s@)) == "canceled"@),
{
    law_no_other_word_names_a_state(s@, x);
}

/// The record of a new job waits in the queue with what the submission asked for
/// and nothing done yet.
pub proof fn law_the_record_of_a_new_job(spec: &JobSpec, r: JobStatus)
    requires
        call_ensures(JobStatus::new, (spec,), r),
    ensures
        r.state == JobState::Queued,
        r.id == spec.id && r.name@ == spec.name@ && r.cwd@ == spec.cwd@ && r.submitted_at
            == spec.submitted_at,
        r.cpu == spec.cpu && r.mem == spec.mem && r.group == spec.group && r.needs@ == spec.needs@
            && r.after@ == spec.after@ && r.retries_left == spec.retries,
        text::views(r.command@) == text::views(spec.command@) && text::views(r.tags@)
            == text::views(spec.tags@) && text::views(r.locks@) == text::views(spec.locks@),
        r.pid is None && r.started_at is None && r.finished_at is None && r.exit_code is None
            && r.signal is None && r.error is None && r.caused_by is None && r.attempts == 0,
{
}

/// The output of a stream that went is that of the stream with the name.
pub proof fn law_what_went_of_a_stream(d: &LogsDropped, stream: &str, r: Option<(u64, u64)>, any: bool)
    requires
        call_ensures(LogsDropped::of, (d, stream), r),
        call_ensures(LogsDropped::any, (d,), any),
    ensures
        stream@ == "stdout"@ && d.stdout_bytes > 0 ==> r == Some((d.stdout_bytes, d.stdout_lines)),
        stream@ == "stderr"@ && d.stderr_bytes > 0 ==> r == Some((d.stderr_bytes, d.stderr_lines)),
        any <==> d.stdout_bytes > 0 || d.stderr_bytes > 0 || d.incomplete,
{
    reveal_strlit("stdout");
    reveal_strlit("stderr");
    assert("stdout"@[3] == 'o' && "stderr"@[3] == 'e');
}

/// A copy of a list of processes names the same processes, one for one.
pub proof fn law_a_copy_of_a_chain(chain: &Vec<Ancestor>, r: Vec<Ancestor>, i: int)
    requires
        call_ensures(copy_chain, (chain,), r),
        0 <= i < chain@.len(),
    ensures
        r@.len() == chain@.len(),
        r@[i].pid == chain@[i].pid && r@[i].ppid == chain@[i].ppid && r@[i].start
            == chain@[i].start && r@[i].terminal == chain@[i].terminal,
        r@[i].name@ == chain@[i].name@,
        r@[i].cwd is Some <==> chain@[i].cwd is Some,
        r@[i].cwd is Some ==> r@[i].cwd->0@ == chain@[i].cwd->0@,
{
}

/// A copy of a record says the same of the job: who it is, what it ran, when, and
/// how it ended.
pub proof fn law_a_copy_of_a_record(job: &JobStatus, r: JobStatus)
    requires
        call_ensures(JobStatus::copy, (job,), r),
    ensures
        r.id == job.id && r.name@ == job.name@ && r.cwd@ == job.cwd@ && r.state == job.state,
        r.command@.len() == job.command@.len() && forall|i: int|
            0 <= i < r.command@.len() ==> (#[trigger] r.command@[i])@ == job.command@[i]@,
        r.pid == job.pid && r.pid_start_token == job.pid_start_token && r.last_pid == job.last_pid
            && r.supervisor_pid == job.supervisor_pid,
        r.exit_code == job.exit_code && r.signal == job.signal,
        r.submitted_at == job.submitted_at && r.sequence == job.sequence && r.started_at
            == job.started_at && r.finished_at == job.finished_at,
        r.cpu == job.cpu && r.mem == job.mem && r.claim_source@ == job.claim_source@ && r.usage
            == job.usage,
        r.group == job.group && r.needs@ == job.needs@ && r.after@ == job.after@ && r.caused_by
            == job.caused_by,
        r.forced == job.forced && r.attempts == job.attempts && r.retries_left
            == job.retries_left && r.logs_dropped == job.logs_dropped && r.queue_pause_secs
            == job.queue_pause_secs,
        r.submitter@.len() == job.submitter@.len(),
        r.error is Some <==> job.error is Some,
        r.blocked_reason is Some <==> job.blocked_reason is Some,
        r.forced_reason is Some <==> job.forced_reason is Some,
        r.boot_id is Some <==> job.boot_id is Some,
        r.dedupe_key is Some <==> job.dedupe_key is Some,
        r.group_name is Some <==> job.group_name is Some,
        r.tags@.len() == job.tags@.len() && r.locks@.len() == job.locks@.len(),
{
    assert(text::views(r.command@).len() == r.command@.len());
    assert(text::views(job.command@).len() == job.command@.len());
    assert(text::views(r.tags@).len() == r.tags@.len());
    assert(text::views(job.tags@).len() == job.tags@.len());
    assert(text::views(r.locks@).len() == r.locks@.len());
    assert(text::views(job.locks@).len() == job.locks@.len());
    assert forall|i: int| 0 <= i < r.command@.len() implies (#[trigger] r.command@[i])@
        == job.command@[i]@ by {
        assert(text::views(r.command@)[i] == r.command@[i]@);
        assert(text::views(job.command@)[i] == job.command@[i]@);
    }
}

} // verus!
