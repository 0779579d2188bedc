//! The values that qex uses now, for a person to read.
//!
//! The text shows the calculated values, and not the text of the config file. A
//! reader can then see the true budget without a calculation.

use crate::text;
use crate::units;
use vstd::prelude::*;
use vstd::string::*;

verus! {

/// The state of the enforcement.
#[derive(Debug)]
pub enum Enforcement {
    /// The mode is not active. The text says why.
    NotActive { mode: String, warning: String },
    Active { mode: String },
    Off,
}

/// The values of the configuration.
#[derive(Debug)]
pub struct Values {
    /// The config file.
    pub path: String,
    /// True when the config file is there.
    pub present: bool,
    /// The cores and the memory of the machine.
    pub cores: u64,
    pub memory: u64,
    pub budget_cpu: u64,
    pub budget_mem: u64,
    pub default_cpu: u64,
    pub default_mem: u64,
    /// The seconds, or none for no limit.
    pub default_timeout: Option<u64>,
    pub reserve_mem: u64,
    /// The bytes of each stream of each job, or none for no limit.
    pub log_max_bytes: Option<u64>,
    pub nice: i32,
    pub io: String,
    pub oom_score_adj: i32,
    pub enforcement: Enforcement,
    /// The state of the shared accounting.
    pub peers: String,
    pub oversized: String,
    /// What a job gets of the environment.
    pub env_capture: String,
    /// True when a job gets no variable that qex chose.
    pub env_none: bool,
    pub export_env: bool,
    /// The programs that learn the claim besides.
    pub also: Vec<String>,
}

/// The line about the timeout of a job.
pub open spec fn timeout_words(secs: Option<u64>) -> Seq<char> {
    match secs {
        Some(s) => "timeout "@ + units::duration_text(s as nat),
        None => "no timeout"@,
    }
}

/// The words about the limit of the output.
pub open spec fn output_words(limit: Option<u64>) -> Seq<char> {
    match limit {
        Some(n) => units::size_text(n as nat)
            + " for each stream of each job; qex keeps the first part and the last part"@,
        None => "NO LIMIT; a job can fill the disk that holds the records"@,
    }
}

/// The lines about the enforcement.
pub open spec fn enforcement_words(e: Enforcement) -> Seq<char> {
    match e {
        Enforcement::NotActive { mode, warning } => "enforcement:  "@ + mode@
            + " — NOT ACTIVE\n              "@ + warning@ + "\n"@,
        Enforcement::Active { mode } => "enforcement:  "@ + mode@ + ", active\n"@,
        Enforcement::Off => "enforcement:  off; the claims control the queue only\n"@,
    }
}

/// The words about the claim that a job learns. Every condition that turns it
/// off counts.
pub open spec fn claim_words(v: Values) -> Seq<char> {
    if !v.export_env {
        "no; [claims] export_env = false"@
    } else if v.env_none {
        "no; [submit] env_capture = \"none\" gives a job no variable that qex chose"@
    } else if v.also@.len() == 0 {
        "yes, with --cpu and --mem together"@
    } else {
        "yes, with --cpu and --mem together; also "@ + text::joined(text::views(v.also@), ", "@)
    }
}

/// The first lines: the file, the machine and the budget.
pub open spec fn first_lines(v: Values) -> Seq<char> {
    "config file: "@ + v.path@ + (if v.present {
        " (read)\n\n"@
    } else {
        " (absent; qex uses the default values)\n\n"@
    }) + "machine:      "@ + text::digits(v.cores as nat) + " cores, "@ + units::size_text(
        v.memory as nat,
    ) + "\nbudget:       "@ + text::digits(v.budget_cpu as nat) + " cores, "@ + units::size_text(
        v.budget_mem as nat,
    ) + "\ndefault job:  "@ + text::digits(v.default_cpu as nat) + " core(s), "@
        + units::size_text(v.default_mem as nat) + ", "@ + timeout_words(v.default_timeout)
        + "\nkeep free:    "@ + units::size_text(v.reserve_mem as nat) + " of memory\n"@
}

/// The lines about the jobs.
pub open spec fn last_lines(v: Values) -> Seq<char> {
    "job output:   "@ + output_words(v.log_max_bytes) + "\npoliteness:   nice "@ + text::signed(
        v.nice as int,
    ) + "; io "@ + v.io@ + ", oom_score_adj "@ + text::signed(v.oom_score_adj as int)
        + " (Linux only)\n"@ + enforcement_words(v.enforcement) + "peers:        "@ + v.peers@
        + "\noversized:    "@ + v.oversized@ + "\nenvironment:  capture "@ + v.env_capture@
        + "\nclaim in job: "@ + claim_words(v) + "\n"@
}

fn write_timeout(secs: Option<u64>) -> (r: String)
    ensures
        r@ == timeout_words(secs),
{
    match secs {
        Some(s) => {
            let mut m = text::owned("timeout ");
            m.append(units::format_duration(s).as_str());
            m
        },
        None => text::owned("no timeout"),
    }
}

fn write_output(limit: Option<u64>) -> (r: String)
    ensures
        r@ == output_words(limit),
{
    match limit {
        Some(n) => {
            let mut m = units::format_size(n);
            m.append(
                " for each stream of each job; qex keeps the first part and the last part",
            );
            m
        },
        None => text::owned("NO LIMIT; a job can fill the disk that holds the records"),
    }
}

fn write_enforcement(e: &Enforcement) -> (r: String)
    ensures
        r@ == enforcement_words(*e),
{
    match e {
        Enforcement::NotActive { mode, warning } => {
            let mut m = text::owned("enforcement:  ");
            m.append(mode.as_str());
            m.append(" — NOT ACTIVE\n              ");
            m.append(warning.as_str());
            m.append("\n");
            m
        },
        Enforcement::Active { mode } => {
            let mut m = text::owned("enforcement:  ");
            m.append(mode.as_str());
            m.append(", active\n");
            m
        },
        Enforcement::Off => text::owned(
            "enforcement:  off; the claims control the queue only\n",
        ),
    }
}

fn write_claim(v: &Values) -> (r: String)
    ensures
        r@ == claim_words(*v),
{
    if !v.export_env {
        text::owned("no; [claims] export_env = false")
    } else if v.env_none {
        text::owned("no; [submit] env_capture = \"none\" gives a job no variable that qex chose")
    } else if v.also.len() == 0 {
        text::owned("yes, with --cpu and --mem together")
    } else {
        let mut m = text::owned("yes, with --cpu and --mem together; also ");
        m.append(text::join(&v.also, ", ").as_str());
        m
    }
}

fn write_first(v: &Values) -> (r: String)
    ensures
        r@ == first_lines(*v),
{
    let mut m = text::owned("config file: ");
    m.append(v.path.as_str());
    if v.present {
        m.append(" (read)\n\n");
    } else {
        m.append(" (absent; qex uses the default values)\n\n");
    }
    m.append("machine:      ");
    m.append(text::decimal(v.cores).as_str());
    m.append(" cores, ");
    m.append(units::format_size(v.memory).as_str());
    m.append("\nbudget:       ");
    m.append(text::decimal(v.budget_cpu).as_str());
    m.append(" cores, ");
    m.append(units::format_size(v.budget_mem).as_str());
    m.append("\ndefault job:  ");
    m.append(text::decimal(v.default_cpu).as_str());
    m.append(" core(s), ");
    m.append(units::format_size(v.default_mem).as_str());
    m.append(", ");
    m.append(write_timeout(v.default_timeout).as_str());
    m.append("\nkeep free:    ");
    m.append(units::format_size(v.reserve_mem).as_str());
    m.append(" of memory\n");
    m
}

fn write_last(v: &Values) -> (r: String)
    ensures
        r@ == last_lines(*v),
{
    let mut m = text::owned("job output:   ");
    m.append(write_output(v.log_max_bytes).as_str());
    m.append("\npoliteness:   nice ");
    m.append(text::signed_decimal(v.nice as i64).as_str());
    m.append("; io ");
    m.append(v.io.as_str());
    m.append(", oom_score_adj ");
    m.append(text::signed_decimal(v.oom_score_adj as i64).as_str());
    m.append(" (Linux only)\n");
    m.append(write_enforcement(&v.enforcement).as_str());
    m.append("peers:        ");
    m.append(v.peers.as_str());
    m.append("\noversized:    ");
    m.append(v.oversized.as_str());
    m.append("\nenvironment:  capture ");
    m.append(v.env_capture.as_str());
    m.append("\nclaim in job: ");
    m.append(write_claim(v).as_str());
    m.append("\n");
    m
}

/// Writes the values that qex uses now.
pub fn config_summary(v: &Values) -> (r: String)
    ensures
        r@ == first_lines(*v) + last_lines(*v),
{
    let mut m = write_first(v);
    m.append(write_last(v).as_str());
    m
}

// ---------------------------------------------------------------------------
// What the summary promises.
// ---------------------------------------------------------------------------

proof fn lemma_inside(a: Seq<char>, b: Seq<char>, c: Seq<char>)
    ensures
        text::holds(a + b + c, b),
{
    let whole = a + b + c;
    assert(whole.subrange(a.len() as int, a.len() as int + b.len()) == b);
    assert(text::stands_at(whole, b, a.len() as int));
}

proof fn lemma_still_inside(a: Seq<char>, b: Seq<char>, x: Seq<char>)
    ensures
        text::holds(a, x) ==> text::holds(a + b, x),
        text::holds(b, x) ==> text::holds(a + b, x),
{
    let whole = a + b;
    if text::holds(a, x) {
        let at = choose|at: int| text::stands_at(a, x, at);
        assert(whole.subrange(at, at + x.len()) == a.subrange(at, at + x.len()));
        assert(text::stands_at(whole, x, at));
    }
    if text::holds(b, x) {
        let at = choose|at: int| text::stands_at(b, x, at);
        assert(whole.subrange(a.len() + at, a.len() + at + x.len()) == b.subrange(at, at + x.len()));
        assert(text::stands_at(whole, x, a.len() + at));
    }
}

/// The summary names the config file first and says if it was read. It gives the
/// budget, the memory that stays free and the limit of the output as they are.
pub proof fn law_the_summary_gives_the_values(v: &Values, r: String)
    requires
        call_ensures(config_summary, (v,), r),
    ensures
        v.present ==> text::begins(r@, "config file: "@ + v.path@ + " (read)\n\n"@),
        !v.present ==> text::begins(
            r@,
            "config file: "@ + v.path@ + " (absent; qex uses the default values)\n\n"@,
        ),
        text::holds(
            r@,
            "\nbudget:       "@ + text::digits(v.budget_cpu as nat) + " cores, "@
                + units::size_text(v.budget_mem as nat),
        ),
        text::holds(
            r@,
            "\nkeep free:    "@ + units::size_text(v.reserve_mem as nat) + " of memory\n"@,
        ),
        text::holds(r@, "job output:   "@ + output_words(v.log_max_bytes)),
        text::holds(r@, "\nclaim in job: "@ + claim_words(*v)),
{
    let first = first_lines(*v);
    let last = last_lines(*v);
    let budget = "\nbudget:       "@ + text::digits(v.budget_cpu as nat) + " cores, "@
        + units::size_text(v.budget_mem as nat);
    let free = "\nkeep free:    "@ + units::size_text(v.reserve_mem as nat) + " of memory\n"@;
    let output = "job output:   "@ + output_words(v.log_max_bytes);
    let claim = "\nclaim in job: "@ + claim_words(*v);
    lemma_first_lines(*v);
    lemma_last_lines(*v);
    lemma_still_inside(first, last, budget);
    lemma_still_inside(first, last, free);
    lemma_still_inside(first, last, output);
    lemma_still_inside(first, last, claim);
    let start = start_of(*v);
    assert((first + last).subrange(0, start.len() as int) == first.subrange(0, start.len() as int));
}

/// The first line of the summary.
spec fn start_of(v: Values) -> Seq<char> {
    "config file: "@ + v.path@ + (if v.present {
        " (read)\n\n"@
    } else {
        " (absent; qex uses the default values)\n\n"@
    })
}

proof fn lemma_first_lines(v: Values)
    ensures
        text::begins(first_lines(v), start_of(v)),
        text::holds(
            first_lines(v),
            "\nbudget:       "@ + text::digits(v.budget_cpu as nat) + " cores, "@
                + units::size_text(v.budget_mem as nat),
        ),
        text::holds(
            first_lines(v),
            "\nkeep free:    "@ + units::size_text(v.reserve_mem as nat) + " of memory\n"@,
        ),
{
    let front = start_of(v) + "machine:      "@ + text::digits(v.cores as nat) + " cores, "@
        + units::size_text(v.memory as nat);
    let budget = "\nbudget:       "@ + text::digits(v.budget_cpu as nat) + " cores, "@
        + units::size_text(v.budget_mem as nat);
    let middle = "\ndefault job:  "@ + text::digits(v.default_cpu as nat) + " core(s), "@
        + units::size_text(v.default_mem as nat) + ", "@ + timeout_words(v.default_timeout);
    let free = "\nkeep free:    "@ + units::size_text(v.reserve_mem as nat) + " of memory\n"@;
    let all = front + budget + (middle + free);
    assert(first_lines(v) == all);
    lemma_inside(front, budget, middle + free);
    let none = Seq::<char>::empty();
    lemma_inside(front + budget + middle, free, none);
    assert(front + budget + middle + free + none == all);
    assert(all.subrange(0, start_of(v).len() as int) == start_of(v));
}

proof fn lemma_last_lines(v: Values)
    ensures
        text::holds(last_lines(v), "job output:   "@ + output_words(v.log_max_bytes)),
        text::holds(last_lines(v), "\nclaim in job: "@ + claim_words(v)),
{
    let output = "job output:   "@ + output_words(v.log_max_bytes);
    let middle = "\npoliteness:   nice "@ + text::signed(v.nice as int) + "; io "@ + v.io@
        + ", oom_score_adj "@ + text::signed(v.oom_score_adj as int) + " (Linux only)\n"@
        + enforcement_words(v.enforcement) + "peers:        "@ + v.peers@ + "\noversized:    "@
        + v.oversized@ + "\nenvironment:  capture "@ + v.env_capture@;
    let claim = "\nclaim in job: "@ + claim_words(v);
    let none = Seq::<char>::empty();
    let all = output + middle + claim + "\n"@;
    assert(last_lines(v) == all);
    lemma_inside(none, output, middle + claim + "\n"@);
    assert(none + output + (middle + claim + "\n"@) == all);
    lemma_inside(output + middle, claim, "\n"@);
}

/// A job learns its claim exactly where both settings let it.
pub proof fn law_when_a_job_learns_its_claim(v: Values)
    ensures
        v.export_env && !v.env_none <==> text::begins(claim_words(v), "yes, with"@),
        !v.export_env || v.env_none <==> text::begins(claim_words(v), "no; "@),
{
    reveal_strlit("yes, with");
    reveal_strlit("no; ");
    reveal_strlit("no; [claims] export_env = false");
    reveal_strlit("no; [submit] env_capture = \"none\" gives a job no variable that qex chose");
    reveal_strlit("yes, with --cpu and --mem together");
    reveal_strlit("yes, with --cpu and --mem together; also ");
    let t = claim_words(v);
    if !v.export_env || v.env_none {
        assert(t.subrange(0, 4) == "no; "@);
        if text::begins(t, "yes, with"@) {
            assert(t.subrange(0, 9)[0] == t[0]);
        }
    } else {
        assert(t.subrange(0, 9) == "yes, with"@);
        if text::begins(t, "no; "@) {
            assert(t.subrange(0, 4)[0] == t[0]);
        }
    }
}

} // verus!
