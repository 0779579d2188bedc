//! Reports a kill for memory. It applies no limit.
//!
//! Linux counts the processes that an out-of-memory killer stopped, in
//! `memory.events` of each cgroup. A rise in that count says that the kernel
//! stopped something for memory while an attempt ran. It does not name the
//! victim.

use crate::paths;
use crate::text;
use vstd::prelude::*;
use vstd::string::*;

verus! {

/// The out-of-memory counts of a cgroup.
#[derive(Debug, Clone, Copy, PartialEq, Eq, Structural)]
pub struct OomCounts {
    /// The times that this cgroup reached its own limit and the kernel could
    /// not free memory.
    pub oom: u64,
    /// The processes of this cgroup that any out-of-memory killer stopped.
    pub oom_kill: u64,
}

impl Default for OomCounts {
    fn default() -> (r: Self)
        ensures
            r == (OomCounts { oom: 0, oom_kill: 0 }),
    {
        OomCounts { oom: 0, oom_kill: 0 }
    }
}

/// The number of the first line from `i` on that starts with the name and gives
/// a number after it, and 0 where there is none.
pub open spec fn count_from(lines: Seq<Seq<char>>, name: Seq<char>, i: nat) -> nat
    decreases lines.len() - i,
{
    if i >= lines.len() {
        0
    } else {
        match value_of(lines[i as int], name) {
            Some(n) => n,
            None => count_from(lines, name, i + 1),
        }
    }
}

/// The number that a line gives for the name.
pub open spec fn value_of(line: Seq<char>, name: Seq<char>) -> Option<nat> {
    if text::begins(line, name) {
        text::parsed(text::trimmed(line.skip(name.len() as int)), u64::MAX as nat)
    } else {
        None
    }
}

/// The counts that the text of `memory.events` gives.
pub open spec fn counts_of(events: Seq<char>) -> (nat, nat) {
    let lines = text::lines_of(events);
    (count_from(lines, "oom "@, 0), count_from(lines, "oom_kill "@, 0))
}

/// The text behind the prefix.
fn after_prefix(s: &str, prefix: &str) -> (r: Option<String>)
    ensures
        match r {
            Some(t) => text::begins(s@, prefix@) && t@ == s@.skip(prefix@.len() as int),
            None => !text::begins(s@, prefix@),
        },
{
    if !text::starts_with(s, prefix) {
        return None;
    }
    let c = text::chars(s);
    let n: usize = text::chars(prefix).len();
    let out = text::piece(&c, n, c.len());
    assert(s@.subrange(n as int, s@.len() as int) == s@.skip(n as int));
    Some(out)
}

fn count(lines: &Vec<String>, name: &str) -> (r: u64)
    ensures
        r == count_from(text::views(lines@), name@, 0),
{
    let ghost all = text::views(lines@);
    let mut i: usize = 0;
    while i < lines.len()
        invariant
            i <= lines@.len(),
            all == text::views(lines@),
            count_from(all, name@, 0) == count_from(all, name@, i as nat),
        decreases lines@.len() - i,
    {
        assert(all[i as int] == lines@[i as int]@);
        match after_prefix(lines[i].as_str(), name) {
            Some(rest) => match text::parse_number(text::trim(rest.as_str()).as_str(), u64::MAX) {
                Some(n) => {
                    return n;
                },
                None => {},
            },
            None => {},
        }
        i += 1;
    }
    0
}

/// Reads the counts of a cgroup from the text of its `memory.events`.
///
/// A count is zero where the file does not name it, and where the file gives a
/// value that is not a number: zero is the answer that acts least. A file that
/// cannot be read at all gives `None`.
pub fn read_oom_counts(events: Option<&str>) -> (r: Option<OomCounts>)
    ensures
        match events {
            Some(t) => {
                &&& r is Some
                &&& (r->0.oom as nat, r->0.oom_kill as nat) == counts_of(t@)
            },
            None => r is None,
        },
{
    match events {
        Some(t) => {
            let lines = text::lines(t);
            Some(OomCounts { oom: count(&lines, "oom "), oom_kill: count(&lines, "oom_kill ") })
        },
        None => None,
    }
}

/// Tests whether the kernel stopped a process for memory during this attempt:
/// the count of the kills rose since `before`.
///
/// The count is a rise and never a total, because the cgroup holds the kills of
/// every program that ran below it.
pub fn classify_oom(events: Option<&str>, before: OomCounts) -> (r: bool)
    ensures
        r == (events matches Some(t) && counts_of(t@).1 > before.oom_kill),
{
    match read_oom_counts(events) {
        Some(now) => now.oom_kill > before.oom_kill,
        None => false,
    }
}

/// The position of the first line from `i` on that starts with the prefix.
pub open spec fn line_with(lines: Seq<Seq<char>>, prefix: Seq<char>, i: nat) -> Option<nat>
    decreases lines.len() - i,
{
    if i >= lines.len() {
        None
    } else if text::begins(lines[i as int], prefix) {
        Some(i)
    } else {
        line_with(lines, prefix, i + 1)
    }
}

/// The text without each `/` at its start.
pub open spec fn no_root(s: Seq<char>) -> Seq<char>
    decreases s.len(),
{
    if s.len() > 0 && s[0] == '/' {
        no_root(s.skip(1))
    } else {
        s
    }
}

/// The cgroup that the text of `/proc/self/cgroup` gives.
pub open spec fn cgroup_of(t: Seq<char>) -> Option<Seq<char>> {
    let lines = text::lines_of(t);
    match line_with(lines, "0::"@, 0) {
        Some(i) => Some(
            paths::joined(
                "/sys/fs/cgroup"@,
                no_root(text::trimmed(lines[i as int].skip("0::"@.len() as int))),
            ),
        ),
        None => None,
    }
}

fn without_root(s: &str) -> (r: String)
    ensures
        r@ == no_root(s@),
{
    let c = text::chars(s);
    let mut i: usize = 0;
    assert(s@.skip(0) == s@);
    while i < c.len() && c[i] == '/'
        invariant
            c@ == s@,
            i <= c@.len(),
            no_root(s@) == no_root(s@.skip(i as int)),
        decreases c@.len() - i,
    {
        assert(s@.skip(i as int).skip(1) == s@.skip(i + 1));
        i += 1;
    }
    let out = text::piece(&c, i, c.len());
    assert(s@.subrange(i as int, s@.len() as int) == s@.skip(i as int));
    out
}

/// Gives the cgroup of this process from the text of `/proc/self/cgroup`. The
/// caller tests if the directory is there.
pub fn own_cgroup(t: &str) -> (r: Option<String>)
    ensures
        text::opt_view(r) == cgroup_of(t@),
{
    let lines = text::lines(t);
    let ghost all = text::views(lines@);
    let mut i: usize = 0;
    while i < lines.len()
        invariant
            i <= lines@.len(),
            all == text::views(lines@),
            all == text::lines_of(t@),
            line_with(all, "0::"@, 0) == line_with(all, "0::"@, i as nat),
        decreases lines@.len() - i,
    {
        assert(all[i as int] == lines@[i as int]@);
        match after_prefix(lines[i].as_str(), "0::") {
            Some(rest) => {
                let rel = without_root(text::trim(rest.as_str()).as_str());
                return Some(paths::join("/sys/fs/cgroup", rel.as_str()));
            },
            None => {},
        }
        i += 1;
    }
    None
}

/// Watches the out-of-memory counts of one attempt of a job.
///
/// The supervisor makes this value before it starts the program of the attempt.
/// The counts from the start live in here, so no caller can pass the wrong ones.
#[derive(Debug)]
pub struct OomWatch {
    /// The cgroup that qex reads for this attempt.
    pub cgroup: Option<String>,
    /// The counts at the start of this attempt.
    pub before: OomCounts,
}

impl OomWatch {
    /// Takes the cgroup of this process and the text of its `memory.events`,
    /// before the program of the attempt starts.
    pub fn start(cgroup: Option<String>, events: Option<&str>) -> (r: Self)
        ensures
            r.cgroup == cgroup,
            (r.before.oom as nat, r.before.oom_kill as nat) == match events {
                Some(t) => if cgroup is Some {
                    counts_of(t@)
                } else {
                    (0nat, 0nat)
                },
                None => (0nat, 0nat),
            },
    {
        let before = match (&cgroup, read_oom_counts(events)) {
            (Some(_), Some(c)) => c,
            _ => OomCounts { oom: 0, oom_kill: 0 },
        };
        OomWatch { cgroup, before }
    }

    /// Tests if the record of this attempt gets the mark of a kill for memory.
    /// `events` is the text of `memory.events` now.
    pub fn record(&self, events: Option<&str>) -> (r: bool)
        ensures
            r == (self.cgroup is Some && (events matches Some(t) && counts_of(t@).1
                > self.before.oom_kill)),
    {
        match &self.cgroup {
            Some(_) => classify_oom(events, self.before),
            None => false,
        }
    }
}

/// The file in the directory of a job that records a kill for memory.
pub const OOM_MARK: &'static str = "oom";

/// The file in the directory of a job that records a kill by a command.
pub const USER_KILL_MARK: &'static str = "killed-by-user";

/// Tests if the out-of-memory killer stopped a job. `files` holds the names of
/// the files in the directory of the job.
pub fn was_oom_killed(files: &Vec<String>) -> (r: bool)
    ensures
        r == text::views(files@).contains(OOM_MARK@),
{
    oom_evidence(files)
}

/// Gives the evidence for a kill for memory. The record is the only source, and
/// its contents say nothing: the supervisor alone holds the counts from the
/// start of the attempt, and it wrote the record from them.
pub fn oom_evidence(files: &Vec<String>) -> (r: bool)
    ensures
        r == text::views(files@).contains(OOM_MARK@),
{
    text::contains(files, OOM_MARK)
}

/// Tests if a command stopped this job. This mark is the first evidence, and it
/// wins against the counter.
pub fn was_user_killed(files: &Vec<String>) -> (r: bool)
    ensures
        r == text::views(files@).contains(USER_KILL_MARK@),
{
    text::contains(files, USER_KILL_MARK)
}

/// Tests if this machine can tell an out-of-memory kill from another kill.
pub fn oom_evidence_is_available(cgroup: &Option<String>) -> (r: bool)
    ensures
        r == (*cgroup is Some),
{
    cgroup.is_some()
}

/// A count that did not change during the attempt gives no mark, whatever its
/// total is.
pub proof fn law_a_total_is_no_evidence(watch: OomWatch, start: Seq<char>, now: Seq<char>)
    requires
        (watch.before.oom as nat, watch.before.oom_kill as nat) == counts_of(start),
        counts_of(now).1 == counts_of(start).1,
    ensures
        !(watch.cgroup is Some && counts_of(now).1 > watch.before.oom_kill),
{
}

/// The count of a name is the number on the first line that gives one for it,
/// and 0 where no line does.
pub proof fn law_the_first_line_counts(lines: Seq<Seq<char>>, name: Seq<char>, i: nat)
    requires
        i <= lines.len(),
        forall|j: int| 0 <= j < i ==> value_of(#[trigger] lines[j], name) is None,
        i < lines.len() ==> value_of(lines[i as int], name) is Some,
    ensures
        count_from(lines, name, 0) == if i < lines.len() {
            value_of(lines[i as int], name)->0
        } else {
            0
        },
{
    lemma_count_skips(lines, name, 0, i);
}

proof fn lemma_count_skips(lines: Seq<Seq<char>>, name: Seq<char>, k: nat, i: nat)
    requires
        k <= i <= lines.len(),
        forall|j: int| k <= j < i ==> value_of(#[trigger] lines[j], name) is None,
    ensures
        count_from(lines, name, k) == count_from(lines, name, i),
    decreases i - k,
{
    if k < i {
        lemma_count_skips(lines, name, k + 1, i);
    }
}

/// A line gives the number that stands behind its name, and nothing for another
/// name: the line of the kills is not the line of the limit.
pub proof fn law_a_line_counts_for_its_own_name(n: nat, name: Seq<char>)
    requires
        n <= u64::MAX,
    ensures
        value_of(name + text::digits(n), name) == Some(n),
        value_of("oom_kill "@ + text::digits(n), "oom "@) is None,
        value_of("oom "@ + text::digits(n), "oom_kill "@) is None,
{
    reveal_strlit("oom_kill ");
    reveal_strlit("oom ");
    lemma_bare_digits(n);
    text::law_a_number_is_read_as_it_is_written(n, u64::MAX as nat);
    let line = name + text::digits(n);
    assert(line.subrange(0, name.len() as int) == name);
    assert(line.skip(name.len() as int) == text::digits(n));
    let kill = "oom_kill "@ + text::digits(n);
    let limit = "oom "@ + text::digits(n);
    assert(kill[3] == '_');
    assert(limit[3] == ' ');
    if text::begins(kill, "oom "@) {
        assert(kill.subrange(0, 4)[3] == kill[3]);
    }
    if text::begins(limit, "oom_kill "@) {
        assert(limit.subrange(0, 9)[3] == limit[3]);
    }
}

proof fn lemma_bare_digits(n: nat)
    ensures
        text::digits(n).len() > 0,
        forall|k: int| 0 <= k < text::digits(n).len() ==> '0' <= #[trigger] text::digits(n)[k] <= '9',
        text::trimmed(text::digits(n)) == text::digits(n),
    decreases n,
{
    if n >= 10 {
        lemma_bare_digits(n / 10);
    }
    let d = text::digits(n);
    text::lemma_lead(d, 0);
    text::lemma_last_solid(d, d.len() as int);
    assert(text::trimmed(d) == d);
}

/// An attempt gets the mark of a kill for memory exactly where the count of the
/// kills rose from its start to its end. The count of the limit plays no part,
/// and without a cgroup there is no mark.
pub proof fn law_a_rise_is_the_evidence(
    cgroup: Option<String>,
    start: Option<&str>,
    now: Option<&str>,
    watch: OomWatch,
    a: Option<OomCounts>,
    b: Option<OomCounts>,
    r: bool,
)
    requires
        call_ensures(OomWatch::start, (cgroup, start), watch),
        call_ensures(OomWatch::record, (&watch, now), r),
        call_ensures(read_oom_counts, (start,), a),
        call_ensures(read_oom_counts, (now,), b),
    ensures
        cgroup is None || now is None ==> !r,
        cgroup is Some && now is Some && start is Some ==> (r <==> b->0.oom_kill > a->0.oom_kill),
        cgroup is Some && now is Some && start is None ==> (r <==> b->0.oom_kill > 0),
{
}

/// The test of the counts says the same of the counts before.
pub proof fn law_the_test_of_the_counts(
    now: Option<&str>,
    before: OomCounts,
    counts: Option<OomCounts>,
    r: bool,
)
    requires
        call_ensures(read_oom_counts, (now,), counts),
        call_ensures(classify_oom, (now, before), r),
    ensures
        now is None ==> !r && counts is None,
        now is Some ==> counts is Some && (r <==> counts->0.oom_kill > before.oom_kill),
{
}

/// The cgroup of a process is the path behind `0::`, below the directory of the
/// cgroups.
pub proof fn law_the_cgroup_of_a_process(path: Seq<char>)
    requires
        path.len() > 0,
        path[0] != '/',
        forall|j: int|
            0 <= j < path.len() ==> #[trigger] path[j] != '\n' && path[j] != '\r' && !text::white(
                path[j],
            ),
    ensures
        cgroup_of(("0::/"@ + path).push('\n')) == Some("/sys/fs/cgroup/"@ + path),
        cgroup_of(Seq::empty()) is None,
{
    reveal_strlit("0::/");
    reveal_strlit("0::");
    reveal_strlit("/sys/fs/cgroup");
    reveal_strlit("/sys/fs/cgroup/");
    reveal_strlit("/");
    let line = "0::/"@ + path;
    assert forall|j: int| 0 <= j < line.len() implies #[trigger] line[j] != '\n' && line[j] != '\r' by {
        if j >= 4 {
            assert(line[j] == path[j - 4]);
        }
    }
    text::law_one_more_line(Seq::empty(), line);
    assert(Seq::<char>::empty() + line.push('\n') == line.push('\n'));
    assert(text::lines_of(Seq::<char>::empty()).len() == 0);
    let lines = text::lines_of(line.push('\n'));
    assert(lines == seq![line]);
    assert(line.subrange(0, 3) == "0::"@);
    assert(text::begins(lines[0], "0::"@));
    let rest = line.skip(3);
    assert(rest == seq!['/'] + path);
    assert(path[path.len() - 1] == path.last());
    assert(rest.last() == path.last());
    text::lemma_lead(rest, 0);
    text::lemma_last_solid(rest, rest.len() as int);
    assert(text::trimmed(rest) == rest);
    assert(rest.skip(1) == path);
    assert(no_root(path) == path);
    assert(no_root(rest) == path);
    assert("/sys/fs/cgroup"@ + "/"@ + path == "/sys/fs/cgroup/"@ + path);
    assert("/sys/fs/cgroup"@.last() == 'p');
}

/// The marks of a job are the two files of their names, and no other file is one.
pub proof fn law_the_marks_of_a_job(
    files: &Vec<String>,
    oom: bool,
    evidence: bool,
    user: bool,
)
    requires
        call_ensures(was_oom_killed, (files,), oom),
        call_ensures(oom_evidence, (files,), evidence),
        call_ensures(was_user_killed, (files,), user),
    ensures
        oom <==> exists|i: int| 0 <= i < files@.len() && (#[trigger] files@[i])@ == "oom"@,
        evidence == oom,
        user <==> exists|i: int|
            0 <= i < files@.len() && (#[trigger] files@[i])@ == "killed-by-user"@,
{
    lemma_file_named(files@, OOM_MARK@);
    lemma_file_named(files@, USER_KILL_MARK@);
}

proof fn lemma_file_named(files: Seq<String>, name: Seq<char>)
    ensures
        text::views(files).contains(name) <==> exists|i: int|
            0 <= i < files.len() && (#[trigger] files[i])@ == name,
{
    let views = text::views(files);
    if views.contains(name) {
        let i = views.index_of(name);
        assert(files[i]@ == name);
    }
    if exists|i: int| 0 <= i < files.len() && (#[trigger] files[i])@ == name {
        let i = choose|i: int| 0 <= i < files.len() && (#[trigger] files[i])@ == name;
        assert(views[i] == name);
    }
}

} // verus!
