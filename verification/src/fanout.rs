//! One job for each line of an input file.
//!
//! qex starts no shell. The text of a line goes inside one argument, and it
//! never divides the argument, so a line is data and never a command.

use crate::ids;
use crate::paths;
use crate::text;
use crate::units;
use vstd::prelude::*;
use vstd::string::*;

verus! {

/// The text that each line replaces.
pub const PLACEHOLDER: &'static str = "{}";

/// The escape for the text of a place.
pub const ESCAPE: &'static str = "{{}}";

/// The largest fan-out that qex accepts with no option.
pub const DEFAULT_MAX_JOBS: usize = 1000;

/// The longest name that qex makes for one job of a fan-out.
pub const MAX_NAME: usize = 48;

/// The part of the name that comes from the line.
pub const MAX_SLUG: usize = 24;

/// The part of the name that comes from the command.
pub const MAX_BASE: usize = 16;

// ---------------------------------------------------------------------------
// The lines.
// ---------------------------------------------------------------------------

/// The lines of an input file, and a count of the lines that qex passed over.
#[derive(Debug)]
pub struct Input {
    /// The lines that become jobs, in the order of the file.
    pub lines: Vec<String>,
    /// The number of empty lines.
    pub blank: usize,
    /// The number of comment lines.
    pub comments: usize,
}

/// What a line of the file is.
pub enum LineKind {
    Blank,
    Comment,
    Job,
}

/// What a line is, without the space at its ends: an empty line and a line that
/// starts with `#` give no job.
pub open spec fn kind_of(line: Seq<char>) -> LineKind {
    let t = text::trimmed(line);
    if t.len() == 0 {
        LineKind::Blank
    } else if t[0] == '#' {
        LineKind::Comment
    } else {
        LineKind::Job
    }
}

/// The lines that become jobs.
pub open spec fn job_lines(lines: Seq<Seq<char>>) -> Seq<Seq<char>>
    decreases lines.len(),
{
    if lines.len() == 0 {
        Seq::empty()
    } else if kind_of(lines.last()) is Job {
        job_lines(lines.drop_last()).push(text::trimmed(lines.last()))
    } else {
        job_lines(lines.drop_last())
    }
}

/// The number of empty lines.
pub open spec fn blank_lines(lines: Seq<Seq<char>>) -> nat
    decreases lines.len(),
{
    if lines.len() == 0 {
        0
    } else {
        blank_lines(lines.drop_last()) + if kind_of(lines.last()) is Blank {
            1nat
        } else {
            0nat
        }
    }
}

/// The number of comment lines.
pub open spec fn comment_lines(lines: Seq<Seq<char>>) -> nat
    decreases lines.len(),
{
    if lines.len() == 0 {
        0
    } else {
        comment_lines(lines.drop_last()) + if kind_of(lines.last()) is Comment {
            1nat
        } else {
            0nat
        }
    }
}

impl Input {
    /// The input is what the text says.
    pub open spec fn reads(self, t: Seq<char>) -> bool {
        &&& text::views(self.lines@) == job_lines(text::lines_of(t))
        &&& self.blank == blank_lines(text::lines_of(t))
        &&& self.comments == comment_lines(text::lines_of(t))
    }

    /// The number of lines that qex passed over.
    pub fn skipped(&self) -> (r: usize)
        requires
            self.blank + self.comments <= usize::MAX,
        ensures
            r == self.blank + self.comments,
    {
        self.blank + self.comments
    }
}

/// Divides the text of an input file into the lines that become jobs.
///
/// A line ends at a newline, with or without a carriage return before it, and
/// the last line counts also with no final newline. The space at each end of a
/// line goes away.
pub fn parse(t: &str) -> (r: Input)
    ensures
        r.reads(t@),
        r.blank + r.comments <= usize::MAX,
{
    let lines = text::lines(t);
    let ghost all = text::views(lines@);
    let mut input = Input { lines: Vec::new(), blank: 0, comments: 0 };
    let mut i: usize = 0;
    while i < lines.len()
        invariant
            i <= lines@.len(),
            all == text::views(lines@),
            text::views(input.lines@) == job_lines(all.take(i as int)),
            input.blank == blank_lines(all.take(i as int)),
            input.comments == comment_lines(all.take(i as int)),
            input.blank + input.comments <= i,
        decreases lines@.len() - i,
    {
        assert(all.take(i + 1).drop_last() == all.take(i as int));
        assert(all[i as int] == lines@[i as int]@);
        let line = text::trim(lines[i].as_str());
        let c = text::chars(line.as_str());
        let ghost before = input.lines@;
        if c.len() == 0 {
            input.blank = input.blank + 1;
        } else if c[0] == '#' {
            input.comments = input.comments + 1;
        } else {
            let ghost word = line@;
            input.lines.push(line);
            assert(text::views(input.lines@) == text::views(before).push(word));
        }
        i += 1;
    }
    assert(all.take(all.len() as int) == all);
    input
}

/// Each line of a file is a job, an empty line or a comment: no line is lost in
/// silence.
pub proof fn law_every_line_is_counted(lines: Seq<Seq<char>>)
    ensures
        job_lines(lines).len() + blank_lines(lines) + comment_lines(lines) == lines.len(),
    decreases lines.len(),
{
    if lines.len() > 0 {
        law_every_line_is_counted(lines.drop_last());
    }
}

/// A file with a carriage return at the end of each line gives the same input as
/// the file without them, and so does a file with a final newline and one
/// without it.
pub proof fn law_line_ends_change_nothing(input: Input, t: Seq<char>)
    requires
        forall|j: int| 0 <= j < t.len() ==> #[trigger] t[j] != '\r',
    ensures
        input.reads(text::with_returns(t)) <==> input.reads(t),
        t.len() > 0 && t.last() != '\n' ==> (input.reads(t.push('\n')) <==> input.reads(t)),
{
    text::law_returns_change_no_line(t);
    if t.len() > 0 && t.last() != '\n' {
        assert(t[t.len() - 1] == t.last());
        text::law_a_final_line_feed_makes_no_line(t);
    }
}

// ---------------------------------------------------------------------------
// The file.
// ---------------------------------------------------------------------------

/// `str::from_utf8` of the standard library: it accepts exactly the bytes that
/// are UTF-8 text, and the text has those bytes. `Utf8Error::valid_up_to` gives
/// the length of the longest start of the bytes that is UTF-8 text.
#[verifier::external_body]
fn decode(bytes: &[u8]) -> (r: Result<String, usize>)
    ensures
        match r {
            Ok(s) => vstd::utf8::valid_utf8(bytes@) && vstd::utf8::encode_utf8(s@) == bytes@,
            Err(at) => {
                &&& !vstd::utf8::valid_utf8(bytes@)
                &&& at < bytes@.len()
                &&& vstd::utf8::valid_utf8(bytes@.take(at as int))
                &&& forall|n: int|
                    at < n <= bytes@.len() ==> !vstd::utf8::valid_utf8(#[trigger] bytes@.take(n))
            },
        },
{
    match std::str::from_utf8(bytes) {
        Ok(s) => Ok(s.to_string()),
        Err(e) => Err(e.valid_up_to()),
    }
}

/// The number of newlines among the bytes.
pub open spec fn newlines(bytes: Seq<u8>) -> nat
    decreases bytes.len(),
{
    if bytes.len() == 0 {
        0
    } else {
        newlines(bytes.drop_last()) + if bytes.last() == 10 {
            1nat
        } else {
            0nat
        }
    }
}

/// True when the bytes are UTF-8 up to the position, and no longer start is.
pub open spec fn first_fault(bytes: Seq<u8>, at: int) -> bool {
    &&& 0 <= at < bytes.len()
    &&& vstd::utf8::valid_utf8(bytes.take(at))
    &&& forall|n: int| at < n <= bytes.len() ==> !vstd::utf8::valid_utf8(#[trigger] bytes.take(n))
}

/// The text for bytes that are not UTF-8, with the line of the first incorrect
/// byte.
pub open spec fn not_text(name: Seq<char>, line: nat) -> Seq<char> {
    name + " is not UTF-8 text. The first incorrect byte is on line "@ + text::digits(line)
        + ".\n\nThe command of a job is text, so qex cannot run that line, and qex submits no job at all.\n\nCorrect line "@
        + text::digits(line) + ", or write the file again with UTF-8."@
}

/// True for the name of standard input.
pub open spec fn is_stdin(path: Seq<char>) -> bool {
    paths::one_path(path, "-"@)
}

/// The name of the input in a sentence.
pub open spec fn input_name(path: Seq<char>) -> Seq<char> {
    if is_stdin(path) {
        "the input from standard input"@
    } else {
        "the input file "@ + path
    }
}

fn count_newlines(bytes: &[u8], n: usize) -> (r: usize)
    requires
        n <= bytes@.len(),
    ensures
        r == newlines(bytes@.take(n as int)),
        r <= n,
{
    let mut count: usize = 0;
    let mut i: usize = 0;
    let total: usize = bytes.len();
    while i < n
        invariant
            i <= n <= total,
            total == bytes@.len(),
            count == newlines(bytes@.take(i as int)),
            count <= i,
        decreases n - i,
    {
        assert(bytes@.take(i + 1).drop_last() == bytes@.take(i as int));
        if bytes[i] == 10 {
            count += 1;
        }
        i += 1;
    }
    count
}

/// Reads the bytes of the input. qex refuses the whole input when it is not
/// UTF-8: to pass over a line would hide the fault.
pub fn read(path: &str, bytes: &[u8]) -> (r: Result<Input, String>)
    ensures
        match r {
            Ok(input) => exists|t: Seq<char>|
                #[trigger] vstd::utf8::encode_utf8(t) == bytes@ && input.reads(t),
            Err(e) => !vstd::utf8::valid_utf8(bytes@) && exists|at: int| #[trigger]
                first_fault(bytes@, at) && e@ == not_text(
                    input_name(path@),
                    newlines(bytes@.take(at)) + 1,
                ),
        },
{
    match decode(bytes) {
        Ok(s) => {
            let input = parse(s.as_str());
            assert(vstd::utf8::encode_utf8(s@) == bytes@);
            Ok(input)
        },
        Err(at) => {
            let total: usize = bytes.len();
            let line: usize = count_newlines(bytes, at) + 1;
            let mut m = if paths::same_path(path, "-") {
                text::owned("the input from standard input")
            } else {
                let mut n = text::owned("the input file ");
                n.append(path);
                n
            };
            m.append(" is not UTF-8 text. The first incorrect byte is on line ");
            m.append(text::decimal(line as u64).as_str());
            m.append(
                ".\n\nThe command of a job is text, so qex cannot run that line, and qex submits no job at all.\n\nCorrect line ",
            );
            m.append(text::decimal(line as u64).as_str());
            m.append(", or write the file again with UTF-8.");
            assert(first_fault(bytes@, at as int));
            Err(m)
        },
    }
}

/// The text for an input that qex cannot read.
pub open spec fn read_fault(path: Seq<char>, why: Seq<char>) -> Seq<char> {
    if is_stdin(path) {
        "qex cannot read the lines from standard input: "@ + why
            + "\n\n`--each-line -` needs those lines, and one line makes one job, so qex submits nothing.\n\nSend the lines through a pipe, or give the path of a file:\n    ls *.csv | qex submit --each-line - -- ./process {}"@
    } else {
        "qex cannot read the input file "@ + path + ": "@ + why
            + "\n\n`--each-line` needs that file, and one line makes one job, so qex submits nothing.\n\nGive the path of a file that exists, or use `-` to read the lines from another program."@
    }
}

/// Writes the text for an input that qex cannot read.
pub fn unreadable(path: &str, why: &str) -> (r: String)
    ensures
        r@ == read_fault(path@, why@),
{
    if paths::same_path(path, "-") {
        let mut m = text::owned("qex cannot read the lines from standard input: ");
        m.append(why);
        m.append(
            "\n\n`--each-line -` needs those lines, and one line makes one job, so qex submits nothing.\n\nSend the lines through a pipe, or give the path of a file:\n    ls *.csv | qex submit --each-line - -- ./process {}",
        );
        m
    } else {
        let mut m = text::owned("qex cannot read the input file ");
        m.append(path);
        m.append(": ");
        m.append(why);
        m.append(
            "\n\n`--each-line` needs that file, and one line makes one job, so qex submits nothing.\n\nGive the path of a file that exists, or use `-` to read the lines from another program.",
        );
        m
    }
}

// ---------------------------------------------------------------------------
// The places.
// ---------------------------------------------------------------------------

/// The argument from position `i` on with the line in each place, and the number
/// of places. The escape comes first: it holds the text of a place, and it is
/// not one.
pub open spec fn filled(arg: Seq<char>, line: Seq<char>, i: nat) -> (Seq<char>, nat)
    decreases arg.len() - i,
    when i <= arg.len()
    via filled_ends
{
    if i >= arg.len() {
        (Seq::empty(), 0)
    } else if text::stands_at(arg, ESCAPE@, i as int) {
        let rest = filled(arg, line, i + ESCAPE@.len());
        (PLACEHOLDER@ + rest.0, rest.1)
    } else if text::stands_at(arg, PLACEHOLDER@, i as int) {
        let rest = filled(arg, line, i + PLACEHOLDER@.len());
        (line + rest.0, rest.1 + 1)
    } else {
        let rest = filled(arg, line, i + 1);
        (seq![arg[i as int]] + rest.0, rest.1)
    }
}

#[via_fn]
proof fn filled_ends(arg: Seq<char>, line: Seq<char>, i: nat) {
    reveal_strlit("{}");
    reveal_strlit("{{}}");
}

/// Reads one argument, and gives the new text and the number of places.
pub fn scan(arg: &str, line: &str) -> (r: (String, usize))
    ensures
        (r.0@, r.1 as nat) == filled(arg@, line@, 0),
        r.1 <= arg@.len(),
{
    proof {
        reveal_strlit("{}");
        reveal_strlit("{{}}");
    }
    let c = text::chars(arg);
    let place = text::chars(PLACEHOLDER);
    let escape = text::chars(ESCAPE);
    let mut out = String::new();
    let mut count: usize = 0;
    let mut i: usize = 0;
    while i < c.len()
        invariant
            c@ == arg@,
            place@ == PLACEHOLDER@,
            escape@ == ESCAPE@,
            place@.len() == 2,
            escape@.len() == 4,
            i <= c@.len(),
            count <= i,
            filled(arg@, line@, 0).0 == out@ + filled(arg@, line@, i as nat).0,
            filled(arg@, line@, 0).1 == count + filled(arg@, line@, i as nat).1,
        decreases c@.len() - i,
    {
        let ghost before = out@;
        if text::is_at(&c, &escape, i) {
            out.append(PLACEHOLDER);
            assert(before + (PLACEHOLDER@ + filled(arg@, line@, i as nat + 4).0) == out@
                + filled(arg@, line@, i as nat + 4).0);
            i += 4;
        } else if text::is_at(&c, &place, i) {
            out.append(line);
            assert(before + (line@ + filled(arg@, line@, i as nat + 2).0) == out@ + filled(
                arg@,
                line@,
                i as nat + 2,
            ).0);
            count += 1;
            i += 2;
        } else {
            out.push(c[i]);
            assert(before + (seq![arg@[i as int]] + filled(arg@, line@, i as nat + 1).0) == out@
                + filled(arg@, line@, i as nat + 1).0);
            i += 1;
        }
    }
    assert(out@ + Seq::<char>::empty() == out@);
    (out, count)
}

/// The number of places in the first `n` arguments.
pub open spec fn places(command: Seq<Seq<char>>, n: nat) -> nat
    decreases n,
{
    if n == 0 {
        0
    } else {
        places(command, (n - 1) as nat) + filled(command[n - 1], Seq::empty(), 0).1
    }
}

/// True when some argument has a place.
pub open spec fn has_place(command: Seq<Seq<char>>) -> bool {
    places(command, command.len()) > 0
}

/// Counts the places where a line goes.
///
/// The number of characters of a command bounds the result, so it fits wherever
/// the command fits.
pub fn count_placeholders(command: &Vec<String>) -> (r: usize)
    requires
        places(text::views(command@), command@.len()) <= usize::MAX,
    ensures
        r == places(text::views(command@), command@.len()),
{
    let ghost all = text::views(command@);
    let mut count: usize = 0;
    let mut i: usize = 0;
    while i < command.len()
        invariant
            i <= command@.len(),
            all == text::views(command@),
            places(all, command@.len()) <= usize::MAX,
            count == places(all, i as nat),
        decreases command@.len() - i,
    {
        assert(all[i as int] == command@[i as int]@);
        proof {
            lemma_places_grow(all, i as nat + 1, command@.len());
            reveal_strlit("");
            assert(""@ == Seq::<char>::empty());
        }
        let (_, n) = scan(command[i].as_str(), "");
        count = count + n;
        i += 1;
    }
    count
}

proof fn lemma_places_grow(command: Seq<Seq<char>>, a: nat, b: nat)
    requires
        a <= b,
    ensures
        places(command, a) <= places(command, b),
    decreases b - a,
{
    if a < b {
        lemma_places_grow(command, a, (b - 1) as nat);
    }
}

/// Tests if some argument has a place.
fn any_place(command: &Vec<String>) -> (r: bool)
    ensures
        r == has_place(text::views(command@)),
{
    let ghost all = text::views(command@);
    let mut i: usize = 0;
    while i < command.len()
        invariant
            i <= command@.len(),
            all == text::views(command@),
            places(all, i as nat) == 0,
        decreases command@.len() - i,
    {
        assert(all[i as int] == command@[i as int]@);
        proof {
            reveal_strlit("");
            assert(""@ == Seq::<char>::empty());
        }
        let (_, n) = scan(command[i].as_str(), "");
        if n > 0 {
            proof {
                lemma_places_grow(all, i as nat + 1, command@.len());
            }
            return true;
        }
        i += 1;
    }
    false
}

/// Puts the text of one line into every place of the command. Each argument
/// gives exactly one argument, whatever the line holds.
pub fn substitute(command: &Vec<String>, line: &str) -> (r: Vec<String>)
    ensures
        r@.len() == command@.len(),
        forall|i: int|
            0 <= i < r@.len() ==> (#[trigger] r@[i])@ == filled(command@[i]@, line@, 0).0,
{
    let mut out: Vec<String> = Vec::new();
    let mut i: usize = 0;
    while i < command.len()
        invariant
            i <= command@.len(),
            out@.len() == i,
            forall|k: int|
                0 <= k < i ==> (#[trigger] out@[k])@ == filled(command@[k]@, line@, 0).0,
        decreases command@.len() - i,
    {
        let (t, _) = scan(command[i].as_str(), line);
        out.push(t);
        i += 1;
    }
    out
}

/// An argument with one place and no other brace becomes the same argument with
/// the line in the place, character by character, whatever the line holds.
pub proof fn law_a_line_stays_inside_its_argument(
    before: Seq<char>,
    after: Seq<char>,
    line: Seq<char>,
)
    requires
        !before.contains('{'),
        !after.contains('{'),
    ensures
        filled(before + PLACEHOLDER@ + after, line, 0).0 == before + line + after,
        filled(before + PLACEHOLDER@ + after, line, 0).1 == 1,
{
    reveal_strlit("{}");
    reveal_strlit("{{}}");
    let arg = before + PLACEHOLDER@ + after;
    let n = before.len();
    assert(arg.skip(n as int + 2) == after);
    lemma_plain(arg, line, n + 2);
    assert(text::stands_at(arg, PLACEHOLDER@, n as int)) by {
        assert(arg.subrange(n as int, n as int + 2) == PLACEHOLDER@);
    }
    assert(!text::stands_at(arg, ESCAPE@, n as int)) by {
        assert(arg[n as int + 1] == '}');
        if text::stands_at(arg, ESCAPE@, n as int) {
            assert(arg.subrange(n as int, n as int + 4)[1] == '{');
        }
    }
    assert(filled(arg, line, n).0 == line + after);
    assert(filled(arg, line, n).1 == 1);
    lemma_plain_start(arg, line, n, 0);
    assert(arg.subrange(0, n as int) == before);
    assert(before + (line + after) == before + line + after);
}

proof fn lemma_plain(arg: Seq<char>, line: Seq<char>, i: nat)
    requires
        i <= arg.len(),
        !arg.skip(i as int).contains('{'),
    ensures
        filled(arg, line, i) == (arg.skip(i as int), 0nat),
    decreases arg.len() - i,
{
    reveal_strlit("{}");
    reveal_strlit("{{}}");
    if i < arg.len() {
        assert(arg.skip(i as int)[0] == arg[i as int]);
        assert(arg[i as int] != '{');
        lemma_not_a_place(arg, i as int);
        let rest = arg.skip(i as int + 1);
        assert forall|k: int| 0 <= k < rest.len() implies #[trigger] rest[k] != '{' by {
            assert(arg.skip(i as int)[k + 1] == rest[k]);
        }
        lemma_plain(arg, line, i + 1);
        assert(seq![arg[i as int]] + arg.skip(i as int + 1) == arg.skip(i as int));
    } else {
        assert(arg.skip(i as int) == Seq::<char>::empty());
    }
}

proof fn lemma_not_a_place(arg: Seq<char>, i: int)
    requires
        0 <= i < arg.len(),
        arg[i] != '{',
    ensures
        !text::stands_at(arg, PLACEHOLDER@, i),
        !text::stands_at(arg, ESCAPE@, i),
{
    reveal_strlit("{}");
    reveal_strlit("{{}}");
    if text::stands_at(arg, PLACEHOLDER@, i) {
        assert(arg.subrange(i, i + 2)[0] == '{');
    }
    if text::stands_at(arg, ESCAPE@, i) {
        assert(arg.subrange(i, i + 4)[0] == '{');
    }
}

proof fn lemma_plain_start(arg: Seq<char>, line: Seq<char>, n: nat, i: nat)
    requires
        i <= n <= arg.len(),
        forall|k: int| 0 <= k < n ==> arg[k] != '{',
    ensures
        filled(arg, line, i).0 == arg.subrange(i as int, n as int) + filled(arg, line, n).0,
        filled(arg, line, i).1 == filled(arg, line, n).1,
    decreases n - i,
{
    if i < n {
        lemma_not_a_place(arg, i as int);
        lemma_plain_start(arg, line, n, i + 1);
        assert(seq![arg[i as int]] + (arg.subrange(i as int + 1, n as int) + filled(
            arg,
            line,
            n,
        ).0) == arg.subrange(i as int, n as int) + filled(arg, line, n).0);
    } else {
        assert(arg.subrange(i as int, n as int) + filled(arg, line, n).0 == filled(
            arg,
            line,
            n,
        ).0);
    }
}

// ---------------------------------------------------------------------------
// The tests of the command and of the count.
// ---------------------------------------------------------------------------

/// The text for a command with nothing in it.
pub const NO_COMMAND: &'static str = "no command.\n\nWrite the command after `--`, and put `{}` where each line goes:\n    qex submit --each-line inputs.txt -- ./process {}";

/// The text for a command with no place.
pub const NO_PLACE: &'static str = "the command holds no `{}`, so every job would be the same command.\n\n`--each-line` runs one job for each line, and `{}` says where the line goes. With no `{}` the lines have no effect, and qex submits nothing.\n\nPut `{}` in the command:\n    qex submit --each-line inputs.txt -- ./process {}\n\n`{}` goes in any argument, in the program name, or inside an argument such as `--out={}.log`. Write `{{}}` for a literal `{}`.";

/// Tests the command. A command with no place for the line would give jobs that
/// are all the same, so qex refuses it.
pub fn check_command(command: &Vec<String>) -> (r: Result<(), String>)
    ensures
        match r {
            Ok(_) => command@.len() > 0 && has_place(text::views(command@)),
            Err(e) => if command@.len() == 0 {
                e@ == NO_COMMAND@
            } else {
                !has_place(text::views(command@)) && e@ == NO_PLACE@
            },
        },
{
    if command.len() == 0 {
        return Err(text::owned(NO_COMMAND));
    }
    if !any_place(command) {
        return Err(text::owned(NO_PLACE));
    }
    Ok(())
}

/// The text for an input with no line that gives a job.
pub const NO_LINE: &'static str = "the input holds no line that gives a job, so qex submits nothing.\n\nqex passes over an empty line and a line that starts with `#`. Add one line with the input for a job.";

/// The text for a count above the limit.
pub open spec fn over_limit(count: nat, max: nat) -> Seq<char> {
    "the input holds "@ + units::count_text(count, "line"@) + ", and the limit is "@
        + units::count_text(max, "job"@)
        + ".\n\nEach job takes a directory in the state of qex, so a very large fan-out fills the disk and makes `qex list` hard to read.\n\nGive fewer lines, or raise the limit with `--max-jobs "@
        + text::digits(count) + "`."@
}

/// Tests the number of lines against the limit.
pub fn check_count(count: usize, max: usize) -> (r: Result<(), String>)
    ensures
        match r {
            Ok(_) => 0 < count <= max,
            Err(e) => if count == 0 {
                e@ == NO_LINE@
            } else {
                count > max && e@ == over_limit(count as nat, max as nat)
            },
        },
{
    if count == 0 {
        return Err(text::owned(NO_LINE));
    }
    if count > max {
        let mut m = text::owned("the input holds ");
        m.append(units::count_of(count, "line").as_str());
        m.append(", and the limit is ");
        m.append(units::count_of(max, "job").as_str());
        m.append(
            ".\n\nEach job takes a directory in the state of qex, so a very large fan-out fills the disk and makes `qex list` hard to read.\n\nGive fewer lines, or raise the limit with `--max-jobs ",
        );
        m.append(text::decimal(count as u64).as_str());
        m.append("`.");
        return Err(m);
    }
    Ok(())
}

// ---------------------------------------------------------------------------
// The name of a job.
// ---------------------------------------------------------------------------

/// The characters that a name keeps.
pub open spec fn kept(c: char) -> bool {
    text::alnum(c) || c == '.' || c == '_'
}

/// The kept characters, with one dash between those that stood apart.
pub open spec fn slug_of(s: Seq<char>) -> Seq<char>
    decreases s.len(),
{
    if s.len() == 0 {
        Seq::empty()
    } else {
        let rest = slug_of(s.drop_last());
        if !kept(s.last()) {
            rest
        } else if s.len() > 1 && !kept(s[s.len() - 2]) && rest.len() > 0 {
            rest.push('-').push(s.last())
        } else {
            rest.push(s.last())
        }
    }
}

fn is_kept(c: char) -> (r: bool)
    ensures
        r == kept(c),
{
    text::is_alnum(c) || c == '.' || c == '_'
}

/// Changes text into the part of a job name that a person reads. It keeps the
/// letters, the numbers, `.` and `_`, and each run of other characters between
/// them becomes one dash.
pub fn slug(line: &str) -> (r: String)
    ensures
        r@ == slug_of(line@),
{
    let c = text::chars(line);
    let mut out = String::new();
    let mut some = false;
    let mut i: usize = 0;
    while i < c.len()
        invariant
            c@ == line@,
            i <= c@.len(),
            out@ == slug_of(line@.take(i as int)),
            some == (out@.len() > 0),
        decreases c@.len() - i,
    {
        assert(line@.take(i + 1).drop_last() == line@.take(i as int));
        if is_kept(c[i]) {
            if some && i > 0 && !is_kept(c[i - 1]) {
                out.push('-');
            }
            out.push(c[i]);
            some = true;
        }
        i += 1;
    }
    assert(line@.take(line@.len() as int) == line@);
    out
}

/// The text without the dashes at its end.
pub open spec fn no_dashes(s: Seq<char>) -> Seq<char>
    decreases s.len(),
{
    if s.len() > 0 && s.last() == '-' {
        no_dashes(s.drop_last())
    } else {
        s
    }
}

/// The text cut to a number of characters, with no dash at the cut.
pub open spec fn cut_to(s: Seq<char>, max: nat) -> Seq<char> {
    if s.len() > max {
        no_dashes(s.take(max as int))
    } else {
        s
    }
}

/// Cuts text to a number of characters.
pub fn cut(t: &str, max: usize) -> (r: String)
    ensures
        r@ == cut_to(t@, max as nat),
{
    let c = text::chars(t);
    if c.len() <= max {
        return text::owned(t);
    }
    let mut n: usize = max;
    while n > 0 && c[n - 1] == '-'
        invariant
            c@ == t@,
            n <= max < c@.len(),
            no_dashes(t@.take(max as int)) == no_dashes(t@.take(n as int)),
        decreases n,
    {
        assert(t@.take(n as int).drop_last() == t@.take(n - 1));
        n -= 1;
    }
    let out = text::piece(&c, 0, n);
    assert(t@.subrange(0, n as int) == t@.take(n as int));
    out
}

/// The first part of a name.
pub open spec fn base_part(base: Seq<char>) -> Seq<char> {
    let b = cut_to(slug_of(base), MAX_BASE as nat);
    if b.len() == 0 {
        "job"@
    } else {
        b
    }
}

/// The position, with the width of the count.
pub open spec fn position_part(index: nat, count: nat) -> Seq<char> {
    text::padded(text::digits(index), '0', text::digits(count).len())
}

/// The whole name, before its cut, with a mark before the part of the line.
pub open spec fn full_name(
    base: Seq<char>,
    index: nat,
    count: nat,
    line: Seq<char>,
    mark: Seq<char>,
) -> Seq<char> {
    let start = base_part(base) + "-"@ + position_part(index, count);
    if slug_of(line).len() == 0 {
        start
    } else {
        start + mark + cut_to(slug_of(line), MAX_SLUG as nat)
    }
}

/// The name with a mark before the part of the line.
pub open spec fn marked_name(
    base: Seq<char>,
    index: nat,
    count: nat,
    line: Seq<char>,
    mark: Seq<char>,
) -> Seq<char> {
    cut_to(full_name(base, index, count, line, mark), MAX_NAME as nat)
}

/// The name of one job of a fan-out: its parts with `-` between them. Where that
/// would have the form of a job id, `_` stands before the part of the line.
pub open spec fn name_of(base: Seq<char>, index: nat, count: nat, line: Seq<char>) -> Seq<char> {
    let usual = marked_name(base, index, count, line, "-"@);
    if ids::id_form(usual) {
        marked_name(base, index, count, line, "_"@)
    } else {
        usual
    }
}

fn whole_name(start: &str, line: &str, mark: &str) -> (r: String)
    ensures
        r@ == cut_to(
            if line@.len() == 0 {
                start@
            } else {
                start@ + mark@ + cut_to(line@, MAX_SLUG as nat)
            },
            MAX_NAME as nat,
        ),
{
    let mut name = text::owned(start);
    if !text::is_empty(line) {
        name.append(mark);
        name.append(cut(line, MAX_SLUG).as_str());
    }
    cut(name.as_str(), MAX_NAME)
}

/// Makes the name for one job of a fan-out: a base, the position in the file,
/// and as much of the line as fits. The position has the same width for every
/// job, so the names sort in the order of the file.
///
/// `index` counts from 1, and `count` is the number of jobs. A job name must not
/// have the form of a job id, so a name that would have it gets another mark
/// after the position.
pub fn job_name(base: &str, index: usize, count: usize, line: &str) -> (r: String)
    ensures
        r@ == name_of(base@, index as nat, count as nat, line@),
{
    let width: usize = text::chars(text::decimal(count as u64).as_str()).len();
    let b = cut(slug(base).as_str(), MAX_BASE);
    let mut start = if text::is_empty(b.as_str()) {
        text::owned("job")
    } else {
        b
    };
    start.append("-");
    start.append(text::pad_left(text::decimal(index as u64).as_str(), '0', width).as_str());
    let s = slug(line);
    let usual = whole_name(start.as_str(), s.as_str(), "-");
    if ids::is_id(usual.as_str()) {
        whole_name(start.as_str(), s.as_str(), "_")
    } else {
        usual
    }
}

/// True for a character that a name can hold.
pub open spec fn name_char(c: char) -> bool {
    kept(c) || c == '-'
}

spec fn all_name_chars(s: Seq<char>) -> bool {
    forall|k: int| 0 <= k < s.len() ==> name_char(#[trigger] s[k])
}

proof fn lemma_slug_chars(s: Seq<char>)
    ensures
        all_name_chars(slug_of(s)),
    decreases s.len(),
{
    if s.len() > 0 {
        lemma_slug_chars(s.drop_last());
    }
}

proof fn lemma_no_dashes(s: Seq<char>)
    ensures
        no_dashes(s).len() <= s.len(),
        no_dashes(s) == s.take(no_dashes(s).len() as int),
    decreases s.len(),
{
    if s.len() > 0 && s.last() == '-' {
        lemma_no_dashes(s.drop_last());
        let n = no_dashes(s).len() as int;
        assert(s.drop_last().take(n) == s.take(n));
    } else {
        assert(s.take(s.len() as int) == s);
    }
}

proof fn lemma_cut(s: Seq<char>, max: nat)
    ensures
        cut_to(s, max).len() <= max,
        cut_to(s, max).len() <= s.len(),
        cut_to(s, max) == s.take(cut_to(s, max).len() as int),
{
    if s.len() > max {
        lemma_no_dashes(s.take(max as int));
        let n = cut_to(s, max).len() as int;
        assert(s.take(max as int).take(n) == s.take(n));
    } else {
        assert(s.take(s.len() as int) == s);
    }
}

proof fn lemma_digit_chars(n: nat)
    ensures
        text::digits(n).len() > 0,
        forall|k: int| 0 <= k < text::digits(n).len() ==> text::is_digit(#[trigger] text::digits(n)[k]),
    decreases n,
{
    if n >= 10 {
        lemma_digit_chars(n / 10);
    }
}

/// A mark that stands before the part of the line.
spec fn is_mark(mark: Seq<char>) -> bool {
    mark.len() == 1 && name_char(mark[0])
}

proof fn lemma_name_parts(
    base: Seq<char>,
    index: nat,
    count: nat,
    line: Seq<char>,
    mark: Seq<char>,
)
    requires
        is_mark(mark),
    ensures
        all_name_chars(full_name(base, index, count, line, mark)),
        0 < base_part(base).len() <= MAX_BASE,
        position_part(index, count).len() > 0,
        full_name(base, index, count, line, mark)[base_part(base).len() as int] == '-',
{
    reveal_strlit("job");
    reveal_strlit("-");
    lemma_slug_chars(base);
    lemma_slug_chars(line);
    lemma_cut(slug_of(base), MAX_BASE as nat);
    lemma_cut(slug_of(line), MAX_SLUG as nat);
    lemma_digit_chars(index);
    lemma_digit_chars(count);
    let p = position_part(index, count);
    assert forall|k: int| 0 <= k < p.len() implies name_char(#[trigger] p[k]) by {
        lemma_position_digits(index, count, k);
    }
}

proof fn lemma_plain_name(base: Seq<char>, index: nat, count: nat, line: Seq<char>, mark: Seq<char>)
    requires
        is_mark(mark),
    ensures
        marked_name(base, index, count, line, mark).len() <= MAX_NAME,
        all_name_chars(marked_name(base, index, count, line, mark)),
{
    lemma_name_parts(base, index, count, line, mark);
    let full = full_name(base, index, count, line, mark);
    lemma_cut(full, MAX_NAME as nat);
    let name = marked_name(base, index, count, line, mark);
    assert forall|k: int| 0 <= k < name.len() implies name_char(#[trigger] name[k]) by {
        assert(name[k] == full[k]);
    }
}

/// A job name holds letters, numbers, `.`, `_` and `-` only, whatever the file
/// holds, and it is never longer than `MAX_NAME`.
pub proof fn law_a_job_name_is_plain(base: Seq<char>, index: nat, count: nat, line: Seq<char>)
    ensures
        name_of(base, index, count, line).len() <= MAX_NAME,
        forall|k: int|
            0 <= k < name_of(base, index, count, line).len() ==> name_char(
                #[trigger] name_of(base, index, count, line)[k],
            ),
{
    reveal_strlit("-");
    reveal_strlit("_");
    lemma_plain_name(base, index, count, line, "-"@);
    lemma_plain_name(base, index, count, line, "_"@);
}

/// A name with the form of an id has the usual form of one, and its base ends
/// where the first or the second group of such a text ends.
proof fn lemma_id_shape(
    base: Seq<char>,
    index: nat,
    count: nat,
    line: Seq<char>,
    mark: Seq<char>,
)
    requires
        is_mark(mark),
        ids::id_form(marked_name(base, index, count, line, mark)),
    ensures
        ids::hyphenated_form(marked_name(base, index, count, line, mark)),
        base_part(base).len() == 8 || base_part(base).len() == 13,
{
    reveal_strlit("urn:uuid:");
    lemma_name_parts(base, index, count, line, mark);
    let full = full_name(base, index, count, line, mark);
    let name = marked_name(base, index, count, line, mark);
    lemma_cut(full, MAX_NAME as nat);
    let b = base_part(base).len() as int;
    assert(name[b] == full[b]);
    if name.len() == 32 {
        assert(!ids::any_hex(name[b]));
    }
    if name.len() == 38 && name[0] == '{' {
        assert(name[0] == full[0]);
        assert(name_char(full[0]));
    }
    if name.len() == 45 && text::lowered(name.take(9)) == "urn:uuid:"@ {
        assert(name[3] == full[3]);
        assert(name_char(full[3]));
        assert(text::lowered(name.take(9))[3] == text::small(name[3]));
        assert("urn:uuid:"@[3] == ':');
    }
    if !(b == 8 || b == 13) {
        assert(ids::any_hex(name[b]));
    }
}

/// A job name never has the form of a job id.
pub proof fn law_a_job_name_has_no_form_of_an_id(
    base: Seq<char>,
    index: nat,
    count: nat,
    line: Seq<char>,
)
    ensures
        !ids::id_form(name_of(base, index, count, line)),
{
    reveal_strlit("-");
    reveal_strlit("_");
    let usual = marked_name(base, index, count, line, "-"@);
    let other = marked_name(base, index, count, line, "_"@);
    if ids::id_form(usual) && ids::id_form(other) {
        lemma_id_shape(base, index, count, line, "-"@);
        lemma_id_shape(base, index, count, line, "_"@);
        lemma_name_parts(base, index, count, line, "-"@);
        let full = full_name(base, index, count, line, "-"@);
        let next = full_name(base, index, count, line, "_"@);
        lemma_cut(full, MAX_NAME as nat);
        lemma_cut(next, MAX_NAME as nat);
        let b = base_part(base).len() as int;
        let p = position_part(index, count);
        // The next `-` of an id can only be the one after the position.
        let at = b + 5;
        let e = b + 1 + p.len();
        assert(usual[at] == '-');
        assert(full[at] == '-');
        if at < e {
            assert(full[at] == p[at - b - 1]);
            lemma_position_digits(index, count, at - b - 1);
        } else if e < at {
            assert(full[e] == '-');
            assert(usual[e] == '-');
            assert(ids::any_hex(usual[e]));
        }
        assert(next[e] == '_');
        assert(other[at] == next[at]);
        assert(other[at] == '-');
    }
}

proof fn lemma_position_digits(index: nat, count: nat, k: int)
    requires
        0 <= k < position_part(index, count).len(),
    ensures
        text::is_digit(position_part(index, count)[k]),
{
    lemma_digit_chars(index);
    let p = position_part(index, count);
    let d = text::digits(index);
    if p.len() > d.len() && k < p.len() - d.len() {
        assert(p[k] == '0');
    } else {
        assert(p[k] == d[k - (p.len() - d.len())]);
    }
}

spec fn all_digits(s: Seq<char>) -> bool {
    forall|k: int| 0 <= k < s.len() ==> text::is_digit(#[trigger] s[k])
}

proof fn lemma_number_of_digits(n: nat)
    ensures
        text::number_of(text::digits(n)) == n,
    decreases n,
{
    if n >= 10 {
        lemma_number_of_digits(n / 10);
        assert(text::digits(n).drop_last() == text::digits(n / 10));
    } else {
        assert(text::digits(n).drop_last() == Seq::<char>::empty());
        assert(text::number_of(Seq::<char>::empty()) == 0);
    }
}

proof fn lemma_number_of_zeros(zeros: Seq<char>, s: Seq<char>)
    requires
        forall|k: int| 0 <= k < zeros.len() ==> #[trigger] zeros[k] == '0',
    ensures
        text::number_of(zeros + s) == text::number_of(s),
    decreases zeros.len() + s.len(),
{
    if s.len() > 0 {
        assert((zeros + s).drop_last() == zeros + s.drop_last());
        lemma_number_of_zeros(zeros, s.drop_last());
    } else if zeros.len() > 0 {
        assert((zeros + s).drop_last() == zeros.drop_last() + s);
        assert((zeros + s).last() == '0');
        lemma_number_of_zeros(zeros.drop_last(), s);
    }
}

proof fn lemma_more_digits(a: nat, b: nat)
    requires
        a <= b,
    ensures
        text::digits(a).len() <= text::digits(b).len(),
    decreases b,
{
    if a >= 10 {
        lemma_more_digits(a / 10, b / 10);
    } else {
        lemma_digit_chars(b);
    }
}

proof fn lemma_position(index: nat, count: nat)
    requires
        index <= count,
    ensures
        position_part(index, count).len() == text::digits(count).len(),
        all_digits(position_part(index, count)),
        text::number_of(position_part(index, count)) == index,
{
    lemma_more_digits(index, count);
    lemma_number_of_digits(index);
    let p = position_part(index, count);
    let d = text::digits(index);
    let w = text::digits(count).len();
    if d.len() < w {
        let zeros = Seq::new((w - d.len()) as nat, |i: int| '0');
        lemma_number_of_zeros(zeros, d);
    }
    assert forall|k: int| 0 <= k < p.len() implies text::is_digit(#[trigger] p[k]) by {
        lemma_position_digits(index, count, k);
    }
}

proof fn lemma_same_number(a: Seq<char>, b: Seq<char>)
    requires
        a.len() == b.len(),
        all_digits(a),
        all_digits(b),
        text::number_of(a) == text::number_of(b),
    ensures
        a == b,
    decreases a.len(),
{
    if a.len() > 0 {
        assert(text::is_digit(a[a.len() - 1]));
        assert(text::is_digit(b[b.len() - 1]));
        lemma_same_number(a.drop_last(), b.drop_last());
        assert(a == a.drop_last().push(a.last()));
        assert(b == b.drop_last().push(b.last()));
    }
}

proof fn lemma_common_start(start: Seq<char>, x: Seq<char>, y: Seq<char>)
    requires
        text::before(x, y),
    ensures
        text::before(start + x, start + y),
    decreases start.len(),
{
    if start.len() > 0 {
        lemma_common_start(start.skip(1), x, y);
        assert((start + x).skip(1) == start.skip(1) + x);
        assert((start + y).skip(1) == start.skip(1) + y);
    } else {
        assert(start + x == x);
        assert(start + y == y);
    }
}

proof fn lemma_smaller_first(a: Seq<char>, b: Seq<char>, x: Seq<char>, y: Seq<char>)
    requires
        a.len() == b.len(),
        all_digits(a),
        all_digits(b),
        text::number_of(a) < text::number_of(b),
    ensures
        text::before(a + x, b + y),
    decreases a.len(),
{
    if a.len() > 0 {
        let c = a.last();
        let d = b.last();
        assert(text::is_digit(a[a.len() - 1]));
        assert(text::is_digit(b[b.len() - 1]));
        let ra = a.drop_last();
        let rb = b.drop_last();
        assert(a + x == ra + (seq![c] + x));
        assert(b + y == rb + (seq![d] + y));
        if text::number_of(ra) == text::number_of(rb) {
            lemma_same_number(ra, rb);
            assert((seq![c] + x)[0] == c);
            assert((seq![d] + y)[0] == d);
            lemma_common_start(ra, seq![c] + x, seq![d] + y);
        } else {
            lemma_smaller_first(ra, rb, seq![c] + x, seq![d] + y);
        }
    }
}

proof fn lemma_kept_end(s: Seq<char>, k: int)
    requires
        0 <= k < s.len(),
        s[k] != '-',
    ensures
        no_dashes(s).len() > k,
    decreases s.len(),
{
    if s.last() == '-' {
        lemma_kept_end(s.drop_last(), k);
    }
}

proof fn lemma_marked_start(
    base: Seq<char>,
    index: nat,
    count: nat,
    line: Seq<char>,
    mark: Seq<char>,
)
    requires
        index <= count <= u64::MAX,
        is_mark(mark),
    ensures
        ({
            let start = base_part(base) + "-"@ + position_part(index, count);
            let name = marked_name(base, index, count, line, mark);
            &&& start.len() <= name.len()
            &&& name.take(start.len() as int) == start
        }),
{
    reveal_strlit("-");
    lemma_name_parts(base, index, count, line, mark);
    lemma_position(index, count);
    units::lemma_u64_digits(count);
    let start = base_part(base) + "-"@ + position_part(index, count);
    let full = full_name(base, index, count, line, mark);
    let name = marked_name(base, index, count, line, mark);
    assert(start.len() <= 37);
    assert(full.take(start.len() as int) == start);
    lemma_cut(full, MAX_NAME as nat);
    if full.len() > MAX_NAME {
        let k = start.len() - 1;
        assert(full[k] == position_part(index, count)[position_part(index, count).len() - 1]);
        assert(text::is_digit(full[k]));
        lemma_kept_end(full.take(MAX_NAME as int), k);
    }
    assert(name.take(start.len() as int) == full.take(start.len() as int));
}

proof fn lemma_name_start(base: Seq<char>, index: nat, count: nat, line: Seq<char>)
    requires
        index <= count <= u64::MAX,
    ensures
        ({
            let start = base_part(base) + "-"@ + position_part(index, count);
            let name = name_of(base, index, count, line);
            &&& start.len() <= name.len()
            &&& name.take(start.len() as int) == start
        }),
{
    reveal_strlit("-");
    reveal_strlit("_");
    lemma_marked_start(base, index, count, line, "-"@);
    lemma_marked_start(base, index, count, line, "_"@);
}

/// The names of the jobs of one fan-out sort in the order of the file, so two
/// lines never give one name.
pub proof fn law_the_names_sort_in_the_order_of_the_file(
    base: Seq<char>,
    i: nat,
    j: nat,
    count: nat,
    line_i: Seq<char>,
    line_j: Seq<char>,
)
    requires
        i < j <= count <= u64::MAX,
    ensures
        text::before(name_of(base, i, count, line_i), name_of(base, j, count, line_j)),
        name_of(base, i, count, line_i) != name_of(base, j, count, line_j),
{
    lemma_name_start(base, i, count, line_i);
    lemma_name_start(base, j, count, line_j);
    lemma_position(i, count);
    lemma_position(j, count);
    let a = name_of(base, i, count, line_i);
    let b = name_of(base, j, count, line_j);
    let start = base_part(base) + "-"@;
    let p = position_part(i, count);
    let q = position_part(j, count);
    let n = (start + p).len() as int;
    assert(a == (start + p) + a.skip(n)) by {
        assert(a == a.take(n) + a.skip(n));
    }
    assert(b == (start + q) + b.skip(n)) by {
        assert(b == b.take(n) + b.skip(n));
    }
    lemma_smaller_first(p, q, a.skip(n), b.skip(n));
    lemma_common_start(start, p + a.skip(n), q + b.skip(n));
    assert(a == start + (p + a.skip(n)));
    assert(b == start + (q + b.skip(n)));
    text::lemma_before_total(a, b);
    text::lemma_before_total(a, a);
}

// ---------------------------------------------------------------------------
// What the lines and the names promise.
// ---------------------------------------------------------------------------

/// One more line of a file gives one more job with exactly the text between its
/// white ends, unless nothing is left there or the first character left is `#`.
/// It then adds one to the empty lines or to the comments, and to nothing else.
/// What stands later in the line changes nothing.
pub proof fn law_only_an_empty_line_and_a_comment_give_no_job(
    lines: Seq<Seq<char>>,
    line: Seq<char>,
)
    ensures
        ({
            let all = lines.push(line);
            let t = text::trimmed(line);
            &&& t.len() > 0 && t[0] != '#' ==> job_lines(all) == job_lines(lines).push(t)
                && blank_lines(all) == blank_lines(lines) && comment_lines(all) == comment_lines(
                lines,
            )
            &&& t.len() > 0 && t[0] == '#' ==> job_lines(all) == job_lines(lines) && blank_lines(
                all,
            ) == blank_lines(lines) && comment_lines(all) == comment_lines(lines) + 1
            &&& t.len() == 0 ==> job_lines(all) == job_lines(lines) && blank_lines(all)
                == blank_lines(lines) + 1 && comment_lines(all) == comment_lines(lines)
        }),
        job_lines(Seq::empty()).len() == 0,
        blank_lines(Seq::empty()) == 0,
        comment_lines(Seq::empty()) == 0,
{
    assert(lines.push(line).drop_last() == lines);
}

/// The same of the text of a file: a line at the end of a file gives one more
/// job with exactly the text between its white ends, unless nothing is left
/// there or the first character left is `#`.
pub proof fn law_a_line_at_the_end_of_a_file(a: Input, b: Input, t: Seq<char>, line: Seq<char>)
    requires
        t.len() == 0 || t.last() == '\n',
        forall|j: int| 0 <= j < line.len() ==> #[trigger] line[j] != '\n' && line[j] != '\r',
        a.reads(t),
        b.reads(t + line.push('\n')),
    ensures
        text::trimmed(line).len() > 0 && text::trimmed(line)[0] != '#' ==> text::views(b.lines@)
            == text::views(a.lines@).push(text::trimmed(line)) && b.blank == a.blank && b.comments
            == a.comments,
        text::trimmed(line).len() > 0 && text::trimmed(line)[0] == '#' ==> text::views(b.lines@)
            == text::views(a.lines@) && b.blank == a.blank && b.comments == a.comments + 1,
        text::trimmed(line).len() == 0 ==> text::views(b.lines@) == text::views(a.lines@)
            && b.blank == a.blank + 1 && b.comments == a.comments,
{
    text::law_one_more_line(t, line);
    law_only_an_empty_line_and_a_comment_give_no_job(text::lines_of(t), line);
}

/// The places are found from left to right: before the first brace every
/// character stays, a place becomes the line, and the escape becomes the text of
/// a place. What stands behind is read in the same way.
pub proof fn law_the_first_brace(before: Seq<char>, after: Seq<char>, line: Seq<char>)
    requires
        !before.contains('{'),
    ensures
        filled(before + "{}"@ + after, line, 0).0 == before + line + filled(after, line, 0).0,
        filled(before + "{}"@ + after, line, 0).1 == 1 + filled(after, line, 0).1,
        filled(before + "{{}}"@ + after, line, 0).0 == before + "{}"@ + filled(after, line, 0).0,
        filled(before + "{{}}"@ + after, line, 0).1 == filled(after, line, 0).1,
        after.len() > 0 && after[0] != '{' && after[0] != '}' ==> filled(
            before.push('{') + after,
            line,
            0,
        ).0 == before.push('{') + filled(after, line, 0).0,
        filled(before, line, 0) == (before, 0nat),
{
    reveal_strlit("{}");
    reveal_strlit("{{}}");
    let n = before.len();
    assert forall|k: int| 0 <= k < n implies before[k] != '{' by {
        assert(before.contains(before[k]));
    }
    let a = before + "{}"@ + after;
    lemma_plain_start(a, line, n, 0);
    assert(a.subrange(0, n as int) == before);
    assert(a.subrange(n as int, n as int + 2) == PLACEHOLDER@);
    assert(text::stands_at(a, PLACEHOLDER@, n as int));
    assert(!text::stands_at(a, ESCAPE@, n as int)) by {
        if text::stands_at(a, ESCAPE@, n as int) {
            assert(a.subrange(n as int, n as int + 4)[1] == a[n as int + 1]);
        }
    }
    assert(a.skip(n as int + 2) == after);
    lemma_filled_rest(a, line, n + 2, after);
    let b = before + "{{}}"@ + after;
    lemma_plain_start(b, line, n, 0);
    assert(b.subrange(0, n as int) == before);
    assert(b.subrange(n as int, n as int + 4) == ESCAPE@);
    assert(text::stands_at(b, ESCAPE@, n as int));
    assert(b.skip(n as int + 4) == after);
    lemma_filled_rest(b, line, n + 4, after);
    if after.len() > 0 && after[0] != '{' && after[0] != '}' {
        let c = before.push('{') + after;
        lemma_plain_start(c, line, n, 0);
        assert(c.subrange(0, n as int) == before);
        assert(c[n as int + 1] == after[0]);
        assert(!text::stands_at(c, ESCAPE@, n as int)) by {
            if text::stands_at(c, ESCAPE@, n as int) {
                assert(c.subrange(n as int, n as int + 4)[1] == c[n as int + 1]);
            }
        }
        assert(!text::stands_at(c, PLACEHOLDER@, n as int)) by {
            if text::stands_at(c, PLACEHOLDER@, n as int) {
                assert(c.subrange(n as int, n as int + 2)[1] == c[n as int + 1]);
            }
        }
        assert(c.skip(n as int + 1) == after);
        lemma_filled_rest(c, line, n + 1, after);
        assert(before + (seq!['{'] + filled(after, line, 0).0) == before.push('{') + filled(
            after,
            line,
            0,
        ).0);
    }
    assert(before.skip(0) == before);
    lemma_plain(before, line, 0);
    assert(before + (line + filled(after, line, 0).0) == before + line + filled(after, line, 0).0);
    assert(before + (PLACEHOLDER@ + filled(after, line, 0).0) == before + "{}"@ + filled(
        after,
        line,
        0,
    ).0);
}

proof fn lemma_filled_rest(arg: Seq<char>, line: Seq<char>, i: nat, rest: Seq<char>)
    requires
        i <= arg.len(),
        arg.skip(i as int) == rest,
    ensures
        filled(arg, line, i) == filled(rest, line, 0),
{
    lemma_filled_shift(arg, line, i, rest, 0);
}

proof fn lemma_filled_shift(arg: Seq<char>, line: Seq<char>, i: nat, rest: Seq<char>, k: nat)
    requires
        i <= arg.len(),
        arg.skip(i as int) == rest,
        k <= rest.len(),
    ensures
        filled(arg, line, i + k) == filled(rest, line, k),
    decreases rest.len() - k,
{
    reveal_strlit("{}");
    reveal_strlit("{{}}");
    let at = i + k;
    if k < rest.len() {
        assert(rest[k as int] == arg[at as int]);
        lemma_stands_shift(arg, i as int, rest, ESCAPE@, k as int);
        lemma_stands_shift(arg, i as int, rest, PLACEHOLDER@, k as int);
        if text::stands_at(rest, ESCAPE@, k as int) {
            lemma_filled_shift(arg, line, i, rest, k + ESCAPE@.len());
        } else if text::stands_at(rest, PLACEHOLDER@, k as int) {
            lemma_filled_shift(arg, line, i, rest, k + PLACEHOLDER@.len());
        } else {
            lemma_filled_shift(arg, line, i, rest, k + 1);
        }
    }
}

proof fn lemma_stands_shift(arg: Seq<char>, i: int, rest: Seq<char>, word: Seq<char>, k: int)
    requires
        0 <= i <= arg.len(),
        arg.skip(i) == rest,
        0 <= k,
    ensures
        text::stands_at(arg, word, i + k) == text::stands_at(rest, word, k),
{
    if i + k + word.len() <= arg.len() {
        assert(arg.subrange(i + k, i + k + word.len()) == rest.subrange(k, k + word.len()));
    }
}

/// A name keeps the ASCII letters, the digits, `.` and `_` of a text, all of
/// them and in their order. One `-` stands where other characters stood between
/// two of them, and none stands at an end.
pub proof fn law_a_slug_keeps_the_plain_characters(s: Seq<char>, c: char)
    ensures
        ({
            let plain = |x: char|
                'a' <= x <= 'z' || 'A' <= x <= 'Z' || '0' <= x <= '9' || x == '.' || x == '_';
            &&& !plain(c) ==> slug_of(s.push(c)) == slug_of(s)
            &&& plain(c) && s.len() > 0 && plain(s.last()) ==> slug_of(s.push(c)) == slug_of(s).push(
                c,
            )
            &&& plain(c) && s.len() > 0 && !plain(s.last()) && slug_of(s).len() > 0 ==> slug_of(
                s.push(c),
            ) == slug_of(s) + seq!['-', c]
            &&& plain(c) && slug_of(s).len() == 0 ==> slug_of(s.push(c)) == seq![c]
        }),
        slug_of(Seq::empty()).len() == 0,
{
    let t = s.push(c);
    assert(t.drop_last() == s);
    if s.len() > 0 {
        assert(t[t.len() - 2] == s.last());
    }
}

/// A cut text is a start of the text, no longer than the limit. A text within
/// the limit stays whole; of a longer one only `-` is lost before the limit.
pub proof fn law_a_cut_is_a_start(s: Seq<char>, max: nat)
    ensures
        cut_to(s, max).len() <= max,
        cut_to(s, max) == s.take(cut_to(s, max).len() as int),
        s.len() <= max ==> cut_to(s, max) == s,
        s.len() > max ==> forall|k: int| cut_to(s, max).len() <= k < max ==> #[trigger] s[k] == '-',
{
    lemma_cut(s, max);
    if s.len() > max {
        lemma_lost_dashes(s.take(max as int));
        assert forall|k: int| cut_to(s, max).len() <= k < max implies #[trigger] s[k] == '-' by {
            assert(s.take(max as int)[k] == s[k]);
        }
    }
}

proof fn lemma_lost_dashes(s: Seq<char>)
    ensures
        forall|k: int| no_dashes(s).len() <= k < s.len() ==> #[trigger] s[k] == '-',
    decreases s.len(),
{
    if s.len() > 0 && s.last() == '-' {
        lemma_lost_dashes(s.drop_last());
        assert forall|k: int| no_dashes(s).len() <= k < s.len() implies #[trigger] s[k] == '-' by {
            if k < s.len() - 1 {
                assert(s.drop_last()[k] == s[k]);
            }
        }
    }
}

/// A name begins with the base, a `-` and the position, filled with `0` to the
/// width of the count. Where a short line leaves something, it follows behind
/// one more mark, whole.
pub proof fn law_the_parts_of_a_name(base: Seq<char>, index: nat, count: nat, line: Seq<char>)
    requires
        index <= count <= u64::MAX,
        0 < slug_of(base).len() <= 16,
        0 < slug_of(line).len() <= 10,
    ensures
        exists|mark: char|
            (mark == '-' || mark == '_') && #[trigger] name_with(base, index, count, line, mark)
                == name_of(base, index, count, line),
        text::number_of(position_part(index, count)) == index,
        position_part(index, count).len() == text::digits(count).len(),
{
    reveal_strlit("-");
    reveal_strlit("_");
    lemma_position(index, count);
    lemma_short_count(count);
    let usual = marked_name(base, index, count, line, "-"@);
    assert(seq!['-'] == "-"@);
    assert(seq!['_'] == "_"@);
    if ids::id_form(usual) {
        assert(name_with(base, index, count, line, '_') == name_of(base, index, count, line));
    } else {
        assert(name_with(base, index, count, line, '-') == name_of(base, index, count, line));
    }
}

/// The base, the position and the line with their marks.
pub open spec fn name_with(base: Seq<char>, index: nat, count: nat, line: Seq<char>, mark: char) -> Seq<
    char,
> {
    slug_of(base) + seq!['-'] + position_part(index, count) + seq![mark] + slug_of(line)
}

proof fn lemma_short_count(n: nat)
    requires
        n <= u64::MAX,
    ensures
        text::digits(n).len() <= 20,
{
    reveal_with_fuel(text::digits, 21);
}

/// Two calls on a file and on the same file with one more line: the second one
/// has one more job with the text between the white ends of the line, unless
/// nothing is left there or the first character left is `#`.
pub proof fn law_one_more_line_of_input(a: &str, b: &str, line: Seq<char>, x: Input, y: Input)
    requires
        a@.len() == 0 || a@.last() == '\n',
        forall|j: int| 0 <= j < line.len() ==> #[trigger] line[j] != '\n' && line[j] != '\r',
        b@ == a@ + line.push('\n'),
        call_ensures(parse, (a,), x),
        call_ensures(parse, (b,), y),
    ensures
        ({
            let t = text::trimmed(line);
            let job = t.len() > 0 && t[0] != '#';
            &&& text::views(y.lines@) == if job {
                text::views(x.lines@).push(t)
            } else {
                text::views(x.lines@)
            }
            &&& y.blank == x.blank + if t.len() == 0 {
                1int
            } else {
                0int
            }
            &&& y.comments == x.comments + if t.len() > 0 && t[0] == '#' {
                1int
            } else {
                0int
            }
        }),
{
    law_a_line_at_the_end_of_a_file(x, y, a@, line);
}

/// The count is accepted exactly from one line to the limit.
pub proof fn law_which_counts_are_accepted(count: usize, max: usize, r: Result<(), String>)
    requires
        call_ensures(check_count, (count, max), r),
    ensures
        r is Ok <==> 1 <= count <= max,
{
}

/// A command is accepted exactly where some argument of it has a place.
pub proof fn law_which_commands_are_accepted(
    command: &Vec<String>,
    r: Result<(), String>,
    i: int,
    before: Seq<char>,
    after: Seq<char>,
)
    requires
        call_ensures(check_command, (command,), r),
        0 <= i < command@.len(),
    ensures
        command@[i]@ == before + "{}"@ + after && !before.contains('{') ==> r is Ok,
        (forall|k: int| 0 <= k < command@.len() ==> !(#[trigger] command@[k])@.contains('{'))
            ==> r is Err,
{
    let views = text::views(command@);
    if command@[i]@ == before + "{}"@ + after && !before.contains('{') {
        law_the_first_brace(before, after, Seq::empty());
        lemma_place_counts(views, i, views.len());
    }
    if forall|k: int| 0 <= k < command@.len() ==> !(#[trigger] command@[k])@.contains('{') {
        lemma_no_places(views, views.len());
    }
}

proof fn lemma_place_counts(command: Seq<Seq<char>>, i: int, n: nat)
    requires
        0 <= i < n <= command.len(),
        filled(command[i], Seq::empty(), 0).1 > 0,
    ensures
        places(command, n) > 0,
    decreases n,
{
    if i < n - 1 {
        lemma_place_counts(command, i, (n - 1) as nat);
    }
}

proof fn lemma_no_places(command: Seq<Seq<char>>, n: nat)
    requires
        n <= command.len(),
        forall|k: int| 0 <= k < command.len() ==> !(#[trigger] command[k]).contains('{'),
    ensures
        places(command, n) == 0,
    decreases n,
{
    if n > 0 {
        lemma_no_places(command, (n - 1) as nat);
        let c = command[n - 1];
        assert(c.skip(0) == c);
        lemma_plain(c, Seq::empty(), 0);
    }
}

/// A line in a place of a command replaces the place and nothing else, whatever
/// the line holds, and no argument is added or lost.
pub proof fn law_a_line_goes_in_its_place(
    command: &Vec<String>,
    line: &str,
    r: Vec<String>,
    i: int,
    before: Seq<char>,
    after: Seq<char>,
)
    requires
        call_ensures(substitute, (command, line), r),
        0 <= i < command@.len(),
        !before.contains('{'),
        !after.contains('{'),
    ensures
        r@.len() == command@.len(),
        command@[i]@ == before + "{}"@ + after ==> r@[i]@ == before + line@ + after,
        command@[i]@ == before + "{{}}"@ + after ==> r@[i]@ == before + "{}"@ + after,
        command@[i]@ == before ==> r@[i]@ == before,
{
    law_the_first_brace(before, after, line@);
    law_the_first_brace(after, Seq::empty(), line@);
}

/// The names of two jobs of one fan-out sort as their lines, differ, hold plain
/// characters only, and are not long.
pub proof fn law_the_names_of_two_jobs(
    base: &str,
    i: usize,
    j: usize,
    count: usize,
    line_i: &str,
    line_j: &str,
    a: String,
    b: String,
)
    requires
        i < j <= count,
        call_ensures(job_name, (base, i, count, line_i), a),
        call_ensures(job_name, (base, j, count, line_j), b),
    ensures
        text::before(a@, b@) && a@ != b@,
        0 < a@.len() <= 48,
        !ids::id_form(a@),
        forall|k: int|
            0 <= k < a@.len() ==> 'a' <= #[trigger] a@[k] <= 'z' || 'A' <= a@[k] <= 'Z' || '0'
                <= a@[k] <= '9' || a@[k] == '.' || a@[k] == '_' || a@[k] == '-',
{
    law_the_names_sort_in_the_order_of_the_file(
        base@,
        i as nat,
        j as nat,
        count as nat,
        line_i@,
        line_j@,
    );
    law_a_job_name_is_plain(base@, i as nat, count as nat, line_i@);
    law_a_job_name_has_no_form_of_an_id(base@, i as nat, count as nat, line_i@);
    lemma_name_start(base@, i as nat, count as nat, line_i@);
    assert forall|k: int| 0 <= k < a@.len() implies 'a' <= #[trigger] a@[k] <= 'z' || 'A' <= a@[k]
        <= 'Z' || '0' <= a@[k] <= '9' || a@[k] == '.' || a@[k] == '_' || a@[k] == '-' by {
        assert(name_char(name_of(base@, i as nat, count as nat, line_i@)[k]));
    }
    reveal_strlit("-");
}

/// The slug and the cut of a text are those of its plain characters.
pub proof fn law_the_slug_of_a_text(
    line: &str,
    r: String,
    t: &str,
    max: usize,
    c: String,
)
    requires
        call_ensures(slug, (line,), r),
        call_ensures(cut, (t, max), c),
    ensures
        (forall|k: int|
            0 <= k < line@.len() ==> 'a' <= #[trigger] line@[k] <= 'z' || 'A' <= line@[k] <= 'Z'
                || '0' <= line@[k] <= '9' || line@[k] == '.' || line@[k] == '_') ==> r@ == line@,
        c@.len() <= max,
        t@.len() <= max ==> c@ == t@,
        c@ == t@.take(c@.len() as int),
{
    law_a_cut_is_a_start(t@, max as nat);
    if forall|k: int|
        0 <= k < line@.len() ==> 'a' <= #[trigger] line@[k] <= 'z' || 'A' <= line@[k] <= 'Z' || '0'
            <= line@[k] <= '9' || line@[k] == '.' || line@[k] == '_' {
        lemma_slug_stays(line@);
    }
}

proof fn lemma_slug_stays(s: Seq<char>)
    requires
        forall|k: int| 0 <= k < s.len() ==> kept(#[trigger] s[k]),
    ensures
        slug_of(s) == s,
    decreases s.len(),
{
    if s.len() > 0 {
        let less = s.drop_last();
        assert forall|k: int| 0 <= k < less.len() implies kept(#[trigger] less[k]) by {
            assert(less[k] == s[k]);
        }
        lemma_slug_stays(less);
        assert(kept(s[s.len() - 1]));
        if s.len() > 1 {
            assert(kept(s[s.len() - 2]));
        }
        assert(less.push(s.last()) == s);
    }
}

/// The lines that gave no job are the empty ones and the comments.
pub proof fn law_which_lines_were_passed_over(input: &Input, r: usize)
    requires
        call_ensures(Input::skipped, (input,), r),
    ensures
        r == input.blank + input.comments,
{
}

} // verus!
