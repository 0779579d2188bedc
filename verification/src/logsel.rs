//! The part of a log file that a command shows.
//!
//! The reader is frequently an agent with a limited context. A job can write
//! hundreds of megabytes, so every path here has a limit, and every path says
//! how many lines it did not show. A reader must never believe that a part of
//! the output is the whole output.

use crate::pattern;
use crate::pattern::Matcher;
use crate::text;
use vstd::prelude::*;
use vstd::string::*;

verus! {

/// The maximum number of lines that a command shows without an option.
pub const DEFAULT_LINES: usize = 500;

/// The maximum number of matches of `--grep` that a command shows.
///
/// A wide pattern can match every line. Without this limit, a search would
/// give the whole file to a reader who asked for a small part of it.
pub const DEFAULT_MATCHES: usize = 100;

/// The number of lines that `--follow` shows before it waits for more.
///
/// A job can already have written a large file when the command starts. Without
/// this limit, `--follow` would write that whole file first.
pub const FOLLOW_LEAD_LINES: usize = 20;

/// The number of lines that `qex status` shows for a job that failed.
///
/// This value is small on purpose. The command shows these lines with no option
/// at all, and the usual reader has a limited context.
pub const STATUS_LINES: usize = 20;

/// The options that select lines of a log.
#[derive(Debug, Clone)]
pub struct LogSelect {
    /// Show the standard output only.
    pub stdout: bool,
    /// Show the standard error only.
    pub stderr: bool,
    /// Show the last N lines.
    pub tail: Option<usize>,
    /// Show the first N lines.
    pub head: Option<usize>,
    /// Show the lines from N to M, in the form `N:M`.
    pub lines: Option<String>,
    /// Show the lines that match this pattern.
    pub grep: Option<String>,
    /// Read the pattern as plain text.
    pub fixed: bool,
    /// Show N lines before and after each match.
    pub context: Option<usize>,
    /// Write the line number before each line.
    pub number: bool,
    /// The maximum number of matches to show.
    pub max_matches: Option<usize>,
    /// Show every line.
    pub all: bool,
}

impl Default for LogSelect {
    fn default() -> (r: Self)
        ensures
            !r.stdout,
            !r.stderr,
            r.tail is None,
            r.head is None,
            r.lines is None,
            r.grep is None,
            !r.fixed,
            r.context is None,
            !r.number,
            r.max_matches is None,
            !r.all,
    {
        LogSelect {
            stdout: false,
            stderr: false,
            tail: None,
            head: None,
            lines: None,
            grep: None,
            fixed: false,
            context: None,
            number: false,
            max_matches: None,
            all: false,
        }
    }
}

/// The result of a selection.
#[derive(Debug)]
pub struct Selected {
    pub text: String,
    /// The number of lines that the selection did not show.
    pub hidden: usize,
    /// True when a limit cut the result.
    pub truncated: bool,
    /// The number of lines that matched `--grep`, before any limit.
    ///
    /// This number is useful by itself. A pattern with 3000 matches is too
    /// wide, and the reader learns that from this number.
    pub matches: Option<usize>,
    /// The number of matches that the output holds. A match after the limit of
    /// the search does not count, also where it stands in the output as a
    /// context line.
    pub matches_shown: usize,
}

impl Selected {
    /// The line that says what the output does not hold.
    pub open spec fn notice_text(self) -> Option<Seq<char>> {
        match self.matches {
            Some(found) => if found > self.matches_shown {
                Some(
                    "... "@ + text::digits(found as nat) + " line(s) match, and qex shows the first "@
                        + text::digits(self.matches_shown as nat)
                        + ". Use `--max-matches N`, `--all`, or a narrower pattern."@,
                )
            } else {
                Some("... "@ + text::digits(found as nat) + " line(s) match."@)
            },
            None => if self.truncated {
                Some(
                    "... "@ + text::digits(self.hidden as nat)
                        + " earlier line(s) are not shown. Use `--all`, `--head N` or `--tail N`."@,
                )
            } else {
                None
            },
        }
    }

    /// Gives one line that says what the output does not hold.
    ///
    /// A reader must never believe that a part of the output is the whole
    /// output, so every command writes this line when something is missing.
    pub fn notice(&self) -> (r: Option<String>)
        ensures
            text::opt_view(r) == self.notice_text(),
    {
        let mut out = text::owned("... ");
        match self.matches {
            Some(found) => {
                out.append(text::decimal(found as u64).as_str());
                if found > self.matches_shown {
                    out.append(" line(s) match, and qex shows the first ");
                    out.append(text::decimal(self.matches_shown as u64).as_str());
                    out.append(". Use `--max-matches N`, `--all`, or a narrower pattern.");
                } else {
                    out.append(" line(s) match.");
                }
                Some(out)
            },
            None => {
                if self.truncated {
                    out.append(text::decimal(self.hidden as u64).as_str());
                    out.append(
                        " earlier line(s) are not shown. Use `--all`, `--head N` or `--tail N`.",
                    );
                    Some(out)
                } else {
                    None
                }
            },
        }
    }
}

/// The positions of the lines, from 0.
pub open spec fn positions(n: nat) -> Seq<int> {
    Seq::new(n, |i: int| i)
}

/// The positions that a list of machine numbers holds.
pub open spec fn ints(s: Seq<usize>) -> Seq<int> {
    s.map_values(|i: usize| i as int)
}

/// The first `n` entries of `s`, or all of them.
pub open spec fn first(s: Seq<int>, n: nat) -> Seq<int> {
    if n < s.len() {
        s.take(n as int)
    } else {
        s
    }
}

/// The last `n` entries of `s`, or all of them.
pub open spec fn last(s: Seq<int>, n: nat) -> Seq<int> {
    if n < s.len() {
        s.skip(s.len() - n)
    } else {
        s
    }
}

/// The positions of the lines that answer to the pattern.
pub open spec fn hits(lines: Seq<Seq<char>>, m: pattern::Meaning) -> Seq<int> {
    positions(lines.len()).filter(|i: int| pattern::answers(m, lines[i]))
}

/// True when position `j` stands at most `context` lines from a position of
/// the list.
pub open spec fn near(list: Seq<int>, context: nat, j: int) -> bool {
    exists|k: int| 0 <= k < list.len() && #[trigger] list[k] - context <= j <= list[k] + context
}

/// What a search chooses: the positions of the lines, how many lines match,
/// and the positions of the matches that the limit keeps.
pub struct Search {
    pub lines: Seq<int>,
    pub found: nat,
    pub kept: Seq<int>,
}

/// What the options ask of a log that has the given lines: a search with the
/// first matches only, and the lines around each of them.
pub open spec fn searched(
    s: LogSelect,
    lines: Seq<Seq<char>>,
    pattern: Seq<char>,
) -> Result<Search, Seq<char>> {
    match pattern::meaning(pattern, s.fixed) {
        Err(e) => Err(e),
        Ok(m) => {
            let all = hits(lines, m);
            let limit = if s.all {
                all.len()
            } else {
                match s.max_matches {
                    Some(n) => n as nat,
                    None => DEFAULT_MATCHES as nat,
                }
            };
            let kept = first(all, limit);
            let context = match s.context {
                Some(n) => n as nat,
                None => 0,
            };
            Ok(
                Search {
                    lines: positions(lines.len()).filter(|j: int| near(kept, context, j)),
                    found: all.len(),
                    kept,
                },
            )
        },
    }
}

/// What a range in the form `N:M` says: the first and the last line, counted
/// from 1; or the message about its fault.
pub open spec fn range_of(s: Seq<char>) -> Result<(nat, nat), Seq<char>> {
    let colon = text::next_at(s, ':', 0);
    if colon >= s.len() {
        Err(
            "incorrect range `"@ + s
                + "`. Use the form N:M, for example --lines 100:200."@,
        )
    } else {
        let a = s.take(colon as int);
        let b = s.skip(colon as int + 1);
        match (
            text::parsed(text::trimmed(a), usize::MAX as nat),
            text::parsed(text::trimmed(b), usize::MAX as nat),
        ) {
            (None, _) => Err("incorrect first line `"@ + a + "` in `"@ + s + "`"@),
            (Some(_), None) => Err("incorrect last line `"@ + b + "` in `"@ + s + "`"@),
            (Some(from), Some(to)) => if from == 0 || to == 0 {
                Err("a line number starts at 1"@)
            } else if from > to {
                Err(
                    "the first line "@ + text::digits(from) + " is after the last line "@
                        + text::digits(to) + " in `"@ + s + "`"@,
                )
            } else {
                Ok((from, to))
            },
        }
    }
}

/// Reads a range such as `4200:4230`.
pub fn parse_range(s: &str) -> (r: Result<(usize, usize), String>)
    ensures
        match r {
            Ok((from, to)) => range_of(s@) == Ok::<(nat, nat), Seq<char>>(
                (from as nat, to as nat),
            ),
            Err(e) => range_of(s@) == Err::<(nat, nat), Seq<char>>(e@),
        },
{
    let chars = text::chars(s);
    let colon: usize = text::find(&chars, ':', 0);
    if colon == chars.len() {
        let mut e = text::owned("incorrect range `");
        e.append(s);
        e.append("`. Use the form N:M, for example --lines 100:200.");
        return Err(e);
    }
    let a = text::piece(&chars, 0, colon);
    let b = text::piece(&chars, colon + 1, chars.len());
    assert(a@ == s@.take(colon as int));
    assert(b@ == s@.skip(colon + 1));
    let from: usize = match text::parse_number(text::trim(a.as_str()).as_str(), usize::MAX as u64) {
        Some(n) => n as usize,
        None => {
            let mut e = text::owned("incorrect first line `");
            e.append(a.as_str());
            e.append("` in `");
            e.append(s);
            e.append("`");
            return Err(e);
        },
    };
    let to: usize = match text::parse_number(text::trim(b.as_str()).as_str(), usize::MAX as u64) {
        Some(n) => n as usize,
        None => {
            let mut e = text::owned("incorrect last line `");
            e.append(b.as_str());
            e.append("` in `");
            e.append(s);
            e.append("`");
            return Err(e);
        },
    };
    if from == 0 || to == 0 {
        return Err(text::owned("a line number starts at 1"));
    }
    if from > to {
        let mut e = text::owned("the first line ");
        e.append(text::decimal(from as u64).as_str());
        e.append(" is after the last line ");
        e.append(text::decimal(to as u64).as_str());
        e.append(" in `");
        e.append(s);
        e.append("`");
        return Err(e);
    }
    Ok((from, to))
}

/// What a selection shows: the positions of the lines, in order, and the
/// counts that go with them.
pub struct Choice {
    pub picked: Seq<int>,
    pub hidden: nat,
    pub matches: Option<nat>,
    pub matches_shown: nat,
}

impl Choice {
    /// A limit cut the result: a line is hidden, or a match is not shown.
    pub open spec fn cut(self) -> bool {
        self.hidden > 0 || (self.matches matches Some(found) && found > self.matches_shown)
    }
}

/// The lines that a search leaves, how many lines match and the matches that
/// its limit keeps; or all the lines where there is no search.
pub open spec fn available(s: LogSelect, lines: Seq<Seq<char>>) -> Result<
    (Seq<int>, Option<nat>, Seq<int>),
    Seq<char>,
> {
    match s.grep {
        Some(pattern) => match searched(s, lines, pattern@) {
            Ok(found) => Ok((found.lines, Some(found.found), found.kept)),
            Err(e) => Err(e),
        },
        None => Ok((positions(lines.len()), None, Seq::empty())),
    }
}

/// How many entries of `kept` the list holds.
pub open spec fn held(kept: Seq<int>, list: Seq<int>) -> nat {
    kept.filter(|i: int| list.contains(i)).len()
}

/// The lines that the options choose. A search comes first, and the other
/// options then act on the lines that it left.
pub open spec fn choice(s: LogSelect, lines: Seq<Seq<char>>, default_limit: nat) -> Result<
    Choice,
    Seq<char>,
> {
    match available(s, lines) {
        Err(e) => Err(e),
        Ok((chosen, matches, kept)) => {
            let picked: Result<Seq<int>, Seq<char>> = match s.lines {
                Some(range) => match range_of(range@) {
                    Ok((from, to)) => Ok(chosen.filter(|i: int| from <= i + 1 <= to)),
                    Err(e) => Err(e),
                },
                None => Ok(
                    match (s.head, s.tail) {
                        (Some(n), _) => first(chosen, n as nat),
                        (None, Some(n)) => last(chosen, n as nat),
                        (None, None) => if s.all {
                            chosen
                        } else {
                            last(chosen, default_limit)
                        },
                    },
                ),
            };
            match picked {
                Ok(list) => Ok(
                    Choice {
                        picked: list,
                        hidden: (chosen.len() - list.len()) as nat,
                        matches,
                        matches_shown: held(kept, list),
                    },
                ),
                Err(e) => Err(e),
            }
        },
    }
}

/// One line as it appears: a mark where lines are missing before it, its
/// number where the option asks for numbers, and its text.
pub open spec fn shown_line(
    lines: Seq<Seq<char>>,
    picked: Seq<int>,
    k: int,
    number: bool,
) -> Seq<char> {
    let gap = if k > 0 && picked[k] > picked[k - 1] + 1 {
        "--\n"@
    } else {
        ""@
    };
    let label = if number {
        text::padded(text::digits((picked[k] + 1) as nat), ' ', 6) + "  "@
    } else {
        ""@
    };
    gap + label + lines[picked[k]] + "\n"@
}

/// The first `n` chosen lines as they appear.
pub open spec fn shown(lines: Seq<Seq<char>>, picked: Seq<int>, n: nat, number: bool) -> Seq<char>
    decreases n,
{
    if n == 0 {
        Seq::empty()
    } else {
        shown(lines, picked, (n - 1) as nat, number) + shown_line(lines, picked, n - 1, number)
    }
}

/// True when each entry is larger than the one before it, and all of them are
/// positions of a list of length `n`.
pub open spec fn rising(s: Seq<int>, n: nat) -> bool {
    &&& forall|i: int| 0 <= i < s.len() ==> 0 <= #[trigger] s[i] < n
    &&& forall|i: int, j: int| 0 <= i < j < s.len() ==> s[i] < s[j]
}

proof fn lemma_filter_step(s: Seq<int>, n: int, p: spec_fn(int) -> bool)
    requires
        0 <= n < s.len(),
    ensures
        s.take(n + 1).filter(p) == (if p(s[n]) {
            s.take(n).filter(p).push(s[n])
        } else {
            s.take(n).filter(p)
        }),
{
    reveal(Seq::filter);
    assert(s.take(n + 1).drop_last() == s.take(n));
    assert(s.take(n + 1).last() == s[n]);
}

proof fn lemma_filter_rising(s: Seq<int>, n: nat, p: spec_fn(int) -> bool)
    requires
        rising(s, n),
    ensures
        rising(s.filter(p), n),
        s.filter(p).len() <= s.len(),
        s.len() > 0 && s.filter(p).len() > 0 ==> s.filter(p).last() <= s.last(),
    decreases s.len(),
{
    reveal(Seq::filter);
    if s.len() > 0 {
        lemma_filter_rising(s.drop_last(), n, p);
    }
}

proof fn lemma_search_rising(s: LogSelect, lines: Seq<Seq<char>>, pattern: Seq<char>)
    ensures
        searched(s, lines, pattern) matches Ok(found) ==> {
            &&& rising(found.lines, lines.len())
            &&& found.lines.len() <= lines.len()
            &&& rising(found.kept, lines.len())
            &&& found.kept.len() <= found.found <= lines.len()
        },
{
    if let Ok(m) = pattern::meaning(pattern, s.fixed) {
        let all = hits(lines, m);
        lemma_filter_rising(
            positions(lines.len()),
            lines.len(),
            |i: int| pattern::answers(m, lines[i]),
        );
        let limit = if s.all {
            all.len()
        } else {
            match s.max_matches {
                Some(n) => n as nat,
                None => DEFAULT_MATCHES as nat,
            }
        };
        let kept = first(all, limit);
        let context = match s.context {
            Some(n) => n as nat,
            None => 0,
        };
        lemma_filter_rising(
            positions(lines.len()),
            lines.len(),
            |j: int| near(kept, context, j),
        );
    }
}

/// No line goes away in silence: the lines that a selection shows and the
/// lines that it counts as hidden are together all the lines that the search
/// left, and with no search they are all the lines of the log. The lines that
/// it shows keep the order of the log.
pub proof fn law_every_line_is_counted(s: LogSelect, lines: Seq<Seq<char>>, default_limit: nat)
    ensures
        choice(s, lines, default_limit) matches Ok(c) ==> {
            &&& available(s, lines) is Ok
            &&& c.picked.len() + c.hidden == available(s, lines)->Ok_0.0.len()
            &&& s.grep is None ==> c.picked.len() + c.hidden == lines.len()
            &&& rising(c.picked, lines.len())
            &&& c.matches matches Some(found) ==> c.matches_shown <= found <= lines.len()
        },
{
    if let Ok((chosen, matches, kept)) = available(s, lines) {
        if let Some(pattern) = s.grep {
            lemma_search_rising(s, lines, pattern@);
        }
        assert(rising(chosen, lines.len()));
        if let Some(range) = s.lines {
            if let Ok((from, to)) = range_of(range@) {
                lemma_filter_rising(chosen, lines.len(), |i: int| from <= i + 1 <= to);
            }
        }
        if let Ok(c) = choice(s, lines, default_limit) {
            lemma_filter_rising(kept, lines.len(), |i: int| c.picked.contains(i));
        }
    }
}

/// A filter that leaves nothing out gives the list itself.
proof fn lemma_filter_whole(s: Seq<int>, p: spec_fn(int) -> bool)
    ensures
        s.filter(p).len() <= s.len(),
        s.filter(p).len() == s.len() <==> s.filter(p) == s,
        (forall|i: int| 0 <= i < s.len() ==> p(#[trigger] s[i])) ==> s.filter(p) == s,
    decreases s.len(),
{
    reveal(Seq::filter);
    if s.len() > 0 {
        let less = s.drop_last();
        lemma_filter_whole(less, p);
        assert(s == less.push(s.last()));
        if forall|i: int| 0 <= i < s.len() ==> p(#[trigger] s[i]) {
            assert forall|i: int| 0 <= i < less.len() implies p(#[trigger] less[i]) by {
                assert(less[i] == s[i]);
            }
            assert(p(s[s.len() - 1]));
        }
    }
}

/// Where no other option hides a line, the output holds every match that the
/// limit of the search keeps, so the matches that it shows are the first ones.
pub proof fn law_the_output_holds_the_first_matches(
    s: LogSelect,
    lines: Seq<Seq<char>>,
    pattern: String,
    default_limit: nat,
)
    requires
        s.grep == Some(pattern),
    ensures
        choice(s, lines, default_limit) matches Ok(c) ==> c.hidden == 0 ==> {
            &&& searched(s, lines, pattern@) is Ok
            &&& c.matches_shown == searched(s, lines, pattern@)->Ok_0.kept.len()
            &&& forall|k: int|
                0 <= k < c.matches_shown ==> c.picked.contains(
                    #[trigger] searched(s, lines, pattern@)->Ok_0.kept[k],
                )
        },
{
    if let Ok(c) = choice(s, lines, default_limit) {
        if c.hidden == 0 {
            let found = searched(s, lines, pattern@)->Ok_0;
            lemma_search_rising(s, lines, pattern@);
            law_every_line_is_counted(s, lines, default_limit);
            if let Some(range) = s.lines {
                if let Ok((from, to)) = range_of(range@) {
                    lemma_filter_whole(found.lines, |i: int| from <= i + 1 <= to);
                }
            }
            assert(c.picked == found.lines);
            let context = match s.context {
                Some(n) => n as nat,
                None => 0,
            };
            let p = |j: int| near(found.kept, context, j);
            assert forall|k: int| 0 <= k < found.kept.len() implies c.picked.contains(
                #[trigger] found.kept[k],
            ) by {
                let at = found.kept[k];
                assert(found.kept[k] - context <= at <= found.kept[k] + context);
                assert(positions(lines.len())[at] == at);
                positions(lines.len()).lemma_filter_contains_rev(p, at);
            }
            lemma_filter_whole(found.kept, |i: int| c.picked.contains(i));
        }
    }
}

/// With no option, a selection shows the last lines and never more than the
/// limit.
pub proof fn law_default_shows_the_last_lines(
    s: LogSelect,
    lines: Seq<Seq<char>>,
    default_limit: nat,
)
    requires
        s.tail is None,
        s.head is None,
        s.lines is None,
        s.grep is None,
        !s.all,
    ensures
        choice(s, lines, default_limit) matches Ok(c) && {
            &&& c.picked.len() == if lines.len() < default_limit {
                lines.len()
            } else {
                default_limit
            }
            &&& c.hidden == lines.len() - c.picked.len()
            &&& forall|i: int|
                0 <= i < c.picked.len() ==> #[trigger] c.picked[i] == c.hidden + i
        },
{
}

/// A search keeps the first matches: the number that it keeps is the number
/// that match, or the limit where that is smaller, and `--all` removes the
/// limit.
pub proof fn law_first_matches(s: LogSelect, lines: Seq<Seq<char>>, pattern: Seq<char>)
    ensures
        searched(s, lines, pattern) matches Ok(found) ==> {
            let limit = match s.max_matches {
                Some(n) => n as nat,
                None => DEFAULT_MATCHES as nat,
            };
            &&& found.kept.len() == if s.all || found.found <= limit {
                found.found
            } else {
                limit
            }
            &&& pattern::meaning(pattern, s.fixed) is Ok
            &&& found.kept == first(
                hits(lines, pattern::meaning(pattern, s.fixed)->Ok_0),
                found.kept.len(),
            )
        },
{
}

/// The text is silent about what is missing only when nothing is missing: no
/// line is hidden, and no search left lines out.
pub proof fn law_notice(s: Selected)
    requires
        s.truncated == (s.hidden > 0 || (s.matches matches Some(found) && found > s.matches_shown)),
    ensures
        s.notice_text() is None <==> s.hidden == 0 && s.matches is None,
{
}

/// What `--follow` refuses.
pub open spec fn follow_fault(s: LogSelect) -> Option<Seq<char>> {
    if s.max_matches is Some {
        Some(
            "--max-matches has no meaning with --follow. A stream has no total, so qex cannot say how many matches come after a limit. Use --grep alone to filter the stream."@,
        )
    } else if s.head is Some {
        Some(
            "--head"@
                + " has no meaning with --follow, because the output continues. Use --grep to filter the stream."@,
        )
    } else if s.lines is Some {
        Some(
            "--lines"@
                + " has no meaning with --follow, because the output continues. Use --grep to filter the stream."@,
        )
    } else {
        None
    }
}

impl LogSelect {
    /// Tests the options against each other.
    ///
    /// `--follow` reads a stream, so an option that counts a total has no
    /// meaning with it. `--tail N` does have a meaning there: the last N lines
    /// that the job already wrote come first.
    pub fn check_with_follow(&self) -> (r: Result<(), String>)
        ensures
            match r {
                Ok(_) => follow_fault(*self) is None,
                Err(e) => follow_fault(*self) == Some(e@),
            },
    {
        if self.max_matches.is_some() {
            return Err(
                text::owned(
                    "--max-matches has no meaning with --follow. A stream has no total, so qex cannot say how many matches come after a limit. Use --grep alone to filter the stream.",
                ),
            );
        }
        if self.head.is_some() {
            let mut e = text::owned("--head");
            e.append(
                " has no meaning with --follow, because the output continues. Use --grep to filter the stream.",
            );
            return Err(e);
        }
        if self.lines.is_some() {
            let mut e = text::owned("--lines");
            e.append(
                " has no meaning with --follow, because the output continues. Use --grep to filter the stream.",
            );
            return Err(e);
        }
        Ok(())
    }

    /// Tests if the user gave any option that selects lines.
    pub fn is_explicit(&self) -> (r: bool)
        ensures
            r == (self.tail is Some || self.head is Some || self.lines is Some || self.grep is Some
                || self.all),
    {
        self.tail.is_some() || self.head.is_some() || self.lines.is_some() || self.grep.is_some()
            || self.all
    }

    /// Gives the numbers of the lines to show, with the context lines.
    ///
    /// The result also gives the number of lines that matched before the limit,
    /// and the numbers of the matches that the limit keeps. A pattern that matches 3000
    /// lines is too wide, and the reader must learn that from the output.
    ///
    /// The search keeps the FIRST matches. In a log, the first failure is
    /// usually the cause, and the failures after it are the result of that
    /// cause.
    pub fn search(&self, lines: &Vec<String>, pattern: &str) -> (r: Result<
        (Vec<usize>, usize, Vec<usize>),
        String,
    >)
        ensures
            match r {
                Ok((list, found, kept)) => searched(*self, text::views(lines@), pattern@) == Ok::<
                    Search,
                    Seq<char>,
                >(Search { lines: ints(list@), found: found as nat, kept: ints(kept@) }),
                Err(e) => searched(*self, text::views(lines@), pattern@) == Err::<
                    Search,
                    Seq<char>,
                >(e@),
            },
    {
        let matcher = match Matcher::new(pattern, self.fixed) {
            Ok(m) => m,
            Err(e) => {
                return Err(e);
            },
        };
        let ghost texts = text::views(lines@);
        let context: usize = match self.context {
            Some(n) => n,
            None => 0,
        };
        let total: usize = lines.len();
        let ghost wanted = |i: int| pattern::answers(matcher@, texts[i]);
        let mut found: Vec<usize> = Vec::new();
        let mut i: usize = 0;
        proof {
            reveal(Seq::filter);
            assert(ints(found@) == positions(total as nat).take(0).filter(wanted));
        }
        while i < total
            invariant
                total == lines@.len(),
                texts == text::views(lines@),
                wanted == (|i: int| pattern::answers(matcher@, texts[i])),
                i <= total,
                found@.len() <= i,
                ints(found@) == positions(total as nat).take(i as int).filter(wanted),
            decreases total - i,
        {
            let ghost before = found@;
            proof {
                lemma_filter_step(positions(total as nat), i as int, wanted);
            }
            assert(texts[i as int] == lines@[i as int]@);
            if matcher.matches(lines[i].as_str()) {
                found.push(i);
                assert(ints(found@) == ints(before).push(i as int));
            }
            i += 1;
        }
        assert(positions(total as nat).take(total as int) == positions(total as nat));
        proof {
            lemma_filter_rising(positions(total as nat), total as nat, wanted);
        }
        let limit: usize = if self.all {
            found.len()
        } else {
            match self.max_matches {
                Some(n) => n,
                None => DEFAULT_MATCHES,
            }
        };
        let shown: usize = if limit < found.len() {
            limit
        } else {
            found.len()
        };
        let ghost kept = first(ints(found@), limit as nat);
        assert(kept == ints(found@).take(shown as int));
        let mut keep: Vec<bool> = Vec::new();
        let mut j: usize = 0;
        while j < total
            invariant
                j <= total,
                keep@.len() == j,
                forall|x: int| 0 <= x < j ==> !keep@[x],
            decreases total - j,
        {
            keep.push(false);
            j += 1;
        }
        let mut k: usize = 0;
        while k < shown
            invariant
                k <= shown <= found@.len(),
                rising(ints(found@), total as nat),
                kept == ints(found@).take(shown as int),
                keep@.len() == total,
                forall|x: int|
                    0 <= x < total ==> #[trigger] keep@[x] == near(
                        kept.take(k as int),
                        context as nat,
                        x,
                    ),
            decreases shown - k,
        {
            let at: usize = found[k];
            assert(ints(found@)[k as int] == at);
            let from: usize = if at < context {
                0
            } else {
                at - context
            };
            let to: usize = if context < total - 1 - at {
                at + context
            } else {
                total - 1
            };
            let ghost earlier = keep@;
            let mut x: usize = from;
            while x <= to
                invariant
                    from <= x <= to + 1,
                    to < total,
                    keep@.len() == total,
                    earlier.len() == total,
                    forall|y: int|
                        0 <= y < total ==> #[trigger] keep@[y] == (earlier[y] || from <= y < x),
                decreases to + 1 - x,
            {
                keep[x] = true;
                x += 1;
            }
            proof {
                let less = kept.take(k as int);
                let more = kept.take(k + 1);
                assert forall|y: int| 0 <= y < total implies #[trigger] keep@[y] == near(
                    more,
                    context as nat,
                    y,
                ) by {
                    assert(earlier[y] == near(less, context as nat, y));
                    if near(less, context as nat, y) {
                        let q = choose|q: int|
                            0 <= q < less.len() && #[trigger] less[q] - context <= y <= less[q]
                                + context;
                        assert(more[q] - context <= y <= more[q] + context);
                    }
                    if from <= y <= to {
                        assert(more[k as int] - context <= y <= more[k as int] + context);
                    }
                    if near(more, context as nat, y) {
                        let q = choose|q: int|
                            0 <= q < more.len() && #[trigger] more[q] - context <= y <= more[q]
                                + context;
                        if q < k {
                            assert(less[q] - context <= y <= less[q] + context);
                        } else {
                            assert(more[q] == at);
                        }
                    }
                }
            }
            k += 1;
        }
        assert(kept.take(shown as int) == kept);
        let ghost around = |j: int| near(kept, context as nat, j);
        let mut list: Vec<usize> = Vec::new();
        let mut n: usize = 0;
        proof {
            reveal(Seq::filter);
            assert(ints(list@) == positions(total as nat).take(0).filter(around));
        }
        while n < total
            invariant
                keep@.len() == total,
                n <= total,
                around == (|j: int| near(kept, context as nat, j)),
                forall|x: int| 0 <= x < total ==> #[trigger] keep@[x] == near(kept, context as nat, x),
                ints(list@) == positions(total as nat).take(n as int).filter(around),
            decreases total - n,
        {
            let ghost before = list@;
            proof {
                lemma_filter_step(positions(total as nat), n as int, around);
            }
            if keep[n] {
                list.push(n);
                assert(ints(list@) == ints(before).push(n as int));
            }
            n += 1;
        }
        let count: usize = found.len();
        let matches = cut(&found, 0, shown);
        assert(ints(matches@) == kept);
        Ok((list, count, matches))
    }

    /// Chooses the part of the text to show.
    ///
    /// `default_limit` is the number of last lines to show when the user gives
    /// no option.
    pub fn apply(&self, text: &str, default_limit: usize) -> (r: Result<Selected, String>)
        ensures
            match r {
                Ok(out) => choice(*self, text::lines_of(text@), default_limit as nat) matches Ok(
                    c,
                ) && {
                    &&& out.text@ == shown(
                        text::lines_of(text@),
                        c.picked,
                        c.picked.len(),
                        self.number,
                    )
                    &&& out.hidden == c.hidden
                    &&& out.truncated == c.cut()
                    &&& c.matches == (match out.matches {
                        Some(n) => Some(n as nat),
                        None => None,
                    })
                    &&& out.matches_shown == c.matches_shown
                },
                Err(e) => choice(*self, text::lines_of(text@), default_limit as nat) == Err::<
                    Choice,
                    Seq<char>,
                >(e@),
            },
    {
        let lines = text::lines(text);
        let total: usize = lines.len();
        let ghost texts = text::lines_of(text@);
        proof {
            law_every_line_is_counted(*self, texts, default_limit as nat);
        }
        // A search comes first. The other options then act on the matches.
        let chosen: Vec<usize>;
        let matches: Option<usize>;
        let kept: Vec<usize>;
        match &self.grep {
            Some(pattern) => {
                match self.search(&lines, pattern.as_str()) {
                    Ok((list, found, first)) => {
                        chosen = list;
                        matches = Some(found);
                        kept = first;
                    },
                    Err(e) => {
                        return Err(e);
                    },
                }
                proof {
                    lemma_search_rising(*self, texts, pattern@);
                }
            },
            None => {
                chosen = every(total);
                matches = None;
                kept = Vec::new();
                assert(ints(kept@) == Seq::<int>::empty());
            },
        }
        assert(rising(ints(chosen@), total as nat));
        let many: usize = chosen.len();
        // Count the lines that each option leaves out.
        let picked: Vec<usize> = if let Some(range) = &self.lines {
            match parse_range(range.as_str()) {
                Ok((from, to)) => between(&chosen, from, to, total),
                Err(e) => {
                    return Err(e);
                },
            }
        } else if let Some(n) = self.head {
            cut(&chosen, 0, if n < many {
                n
            } else {
                many
            })
        } else if let Some(n) = self.tail {
            cut(&chosen, if n < many {
                many - n
            } else {
                0
            }, many)
        } else if self.all {
            cut(&chosen, 0, many)
        } else {
            // No option. Show the last lines, and never the whole file.
            cut(&chosen, if default_limit < many {
                many - default_limit
            } else {
                0
            }, many)
        };
        let ghost c = choice(*self, texts, default_limit as nat)->Ok_0;
        assert(ints(picked@) == c.picked);
        let hidden: usize = many - picked.len();
        let out = render(&lines, &picked, self.number);
        let matches_shown: usize = count_held(&kept, &picked, total);
        let truncated = hidden > 0 || match matches {
            Some(found) => found > matches_shown,
            None => false,
        };
        Ok(Selected { text: out, hidden, truncated, matches, matches_shown })
    }
}

/// The positions of `n` lines.
fn every(n: usize) -> (r: Vec<usize>)
    ensures
        ints(r@) == positions(n as nat),
{
    let mut out: Vec<usize> = Vec::new();
    let mut i: usize = 0;
    while i < n
        invariant
            i <= n,
            out@.len() == i,
            forall|j: int| 0 <= j < i ==> out@[j] == j,
        decreases n - i,
    {
        out.push(i);
        i += 1;
    }
    out
}

/// The entries from `from` to `to`.
fn cut(list: &Vec<usize>, from: usize, to: usize) -> (r: Vec<usize>)
    requires
        from <= to <= list@.len(),
    ensures
        ints(r@) == ints(list@).subrange(from as int, to as int),
{
    let mut out: Vec<usize> = Vec::new();
    let mut i: usize = from;
    while i < to
        invariant
            from <= i <= to <= list@.len(),
            out@ == list@.subrange(from as int, i as int),
        decreases to - i,
    {
        out.push(list[i]);
        i += 1;
        assert(out@ == list@.subrange(from as int, i as int));
    }
    out
}

/// The entries that stand from line `from` to line `to`. A person counts the
/// lines from 1.
fn between(list: &Vec<usize>, from: usize, to: usize, total: usize) -> (r: Vec<usize>)
    requires
        rising(ints(list@), total as nat),
    ensures
        ints(r@) == ints(list@).filter(|i: int| from as nat <= i + 1 <= to as nat),
{
    let ghost inside = |i: int| from as nat <= i + 1 <= to as nat;
    let mut out: Vec<usize> = Vec::new();
    let mut i: usize = 0;
    proof {
        reveal(Seq::filter);
        assert(ints(out@) == ints(list@).take(0).filter(inside));
    }
    while i < list.len()
        invariant
            rising(ints(list@), total as nat),
            inside == (|i: int| from as nat <= i + 1 <= to as nat),
            i <= list@.len(),
            ints(out@) == ints(list@).take(i as int).filter(inside),
        decreases list@.len() - i,
    {
        let ghost before = out@;
        proof {
            lemma_filter_step(ints(list@), i as int, inside);
        }
        let at: usize = list[i];
        assert(ints(list@)[i as int] == at);
        if at + 1 >= from && at + 1 <= to {
            out.push(at);
            assert(ints(out@) == ints(before).push(at as int));
        }
        i += 1;
    }
    assert(ints(list@).take(list@.len() as int) == ints(list@));
    out
}

/// Counts the entries of `kept` that the list holds.
fn count_held(kept: &Vec<usize>, list: &Vec<usize>, total: usize) -> (r: usize)
    requires
        rising(ints(kept@), total as nat),
        rising(ints(list@), total as nat),
    ensures
        r == held(ints(kept@), ints(list@)),
{
    let ghost a = ints(kept@);
    let ghost b = ints(list@);
    let ghost inside = |i: int| b.contains(i);
    let mut count: usize = 0;
    let mut k: usize = 0;
    let mut p: usize = 0;
    proof {
        reveal(Seq::filter);
        assert(a.take(0).filter(inside).len() == 0);
    }
    while k < kept.len()
        invariant
            a == ints(kept@),
            b == ints(list@),
            inside == (|i: int| b.contains(i)),
            rising(a, total as nat),
            rising(b, total as nat),
            k <= kept@.len(),
            p <= list@.len(),
            count <= k,
            count == a.take(k as int).filter(inside).len(),
            forall|j: int, x: int| 0 <= j < p && k <= x < a.len() ==> #[trigger] b[j] < #[trigger] a[x],
        decreases kept@.len() - k,
    {
        let at: usize = kept[k];
        assert(a[k as int] == at);
        while p < list.len() && list[p] < at
            invariant
                a == ints(kept@),
                b == ints(list@),
                rising(a, total as nat),
                k < kept@.len(),
                a[k as int] == at,
                p <= list@.len(),
                forall|j: int, x: int|
                    0 <= j < p && k <= x < a.len() ==> #[trigger] b[j] < #[trigger] a[x],
            decreases list@.len() - p,
        {
            assert(b[p as int] == list@[p as int]);
            p += 1;
        }
        proof {
            lemma_filter_step(a, k as int, inside);
            if p < list@.len() {
                assert(b[p as int] == list@[p as int]);
            }
            if b.contains(at as int) {
                let j = choose|j: int| 0 <= j < b.len() && b[j] == at as int;
                assert(j >= p);
                if j > p {
                    assert(b[p as int] < b[j]);
                }
            }
        }
        if p < list.len() && list[p] == at {
            count += 1;
        }
        k += 1;
    }
    assert(a.take(a.len() as int) == a);
    count
}

/// Writes the chosen lines, with a mark where the selection leaves a gap, so
/// a reader does not read two lines as if they were together.
fn render(lines: &Vec<String>, picked: &Vec<usize>, number: bool) -> (r: String)
    requires
        rising(ints(picked@), lines@.len()),
    ensures
        r@ == shown(text::views(lines@), ints(picked@), picked@.len(), number),
{
    let ghost texts = text::views(lines@);
    let ghost list = ints(picked@);
    let total: usize = lines.len();
    let mut out = String::new();
    let mut k: usize = 0;
    while k < picked.len()
        invariant
            total == lines@.len(),
            texts == text::views(lines@),
            list == ints(picked@),
            rising(list, total as nat),
            k <= picked@.len(),
            out@ == shown(texts, list, k as nat, number),
        decreases picked@.len() - k,
    {
        let i: usize = picked[k];
        assert(list[k as int] == i);
        let mut line = String::new();
        assert(line@ == ""@) by {
            reveal_strlit("");
        }
        if k > 0 {
            let p: usize = picked[k - 1];
            assert(list[k - 1] == p);
            if i > p + 1 {
                line = text::owned("--\n");
            }
        }
        if number {
            let mut label = text::pad_left(text::decimal((i + 1) as u64).as_str(), ' ', 6);
            label.append("  ");
            line.append(label.as_str());
        } else {
            line.append("");
        }
        assert(texts[i as int] == lines@[i as int]@);
        line.append(lines[i].as_str());
        line.append("\n");
        assert(line@ == shown_line(texts, list, k as int, number));
        out.append(line.as_str());
        k += 1;
    }
    out
}

// ---------------------------------------------------------------------------
// What a selection promises.
// ---------------------------------------------------------------------------

proof fn lemma_filter_has(s: Seq<int>, p: spec_fn(int) -> bool, x: int)
    ensures
        s.filter(p).contains(x) <==> s.contains(x) && p(x),
    decreases s.len(),
{
    reveal(Seq::filter);
    if s.len() > 0 {
        let less = s.drop_last();
        let f = less.filter(p);
        lemma_filter_has(less, p, x);
        if s.contains(x) {
            let k = s.index_of(x);
            if k < less.len() {
                assert(less[k] == x);
            }
        }
        if less.contains(x) {
            let k = less.index_of(x);
            assert(s[k] == x);
        }
        if p(s.last()) {
            let g = f.push(s.last());
            assert(g.last() == s.last());
            if f.contains(x) {
                let k = f.index_of(x);
                assert(g[k] == x);
            }
            if g.contains(x) {
                let k = g.index_of(x);
                if k < f.len() {
                    assert(f[k] == x);
                }
            }
        }
        assert(s[s.len() - 1] == s.last());
    }
}

proof fn lemma_positions_has(n: nat, x: int)
    ensures
        positions(n).contains(x) <==> 0 <= x < n,
{
    if 0 <= x < n {
        assert(positions(n)[x] == x);
    }
}

/// A line is a match exactly when it answers to the pattern.
pub proof fn law_the_matches_are_the_answers(
    lines: Seq<Seq<char>>,
    m: pattern::Meaning,
    i: int,
)
    ensures
        hits(lines, m).contains(i) <==> 0 <= i < lines.len() && pattern::answers(m, lines[i]),
{
    lemma_filter_has(positions(lines.len()), |k: int| pattern::answers(m, lines[k]), i);
    lemma_positions_has(lines.len(), i);
}

/// A search chooses exactly the lines that stand no further from a kept match
/// than the context asks for, and the matches themselves where it asks for none.
/// The kept matches are the first ones of all.
pub proof fn law_a_search_shows_the_lines_around_its_matches(
    s: LogSelect,
    lines: Seq<Seq<char>>,
    pattern: Seq<char>,
    j: int,
)
    requires
        searched(s, lines, pattern) is Ok,
    ensures
        ({
            let found = searched(s, lines, pattern)->Ok_0;
            let wide = if s.context is Some {
                s.context->0 as int
            } else {
                0
            };
            let m = pattern::meaning(pattern, s.fixed)->Ok_0;
            &&& found.lines.contains(j) <==> 0 <= j < lines.len() && exists|k: int|
                0 <= k < found.kept.len() && #[trigger] found.kept[k] - wide <= j <= found.kept[k]
                    + wide
            &&& found.kept == hits(lines, m).take(found.kept.len() as int)
            &&& found.found == hits(lines, m).len()
        }),
{
    let found = searched(s, lines, pattern)->Ok_0;
    let wide: nat = if s.context is Some {
        s.context->0 as nat
    } else {
        0
    };
    lemma_filter_has(positions(lines.len()), |x: int| near(found.kept, wide, x), j);
    lemma_positions_has(lines.len(), j);
    let m = pattern::meaning(pattern, s.fixed)->Ok_0;
    assert(hits(lines, m).take(hits(lines, m).len() as int) == hits(lines, m));
}

/// Of the lines that the search left, `--lines N:M` shows those whose numbers
/// are from N to M, counted from 1.
pub proof fn law_a_range_shows_its_lines(
    s: LogSelect,
    lines: Seq<Seq<char>>,
    limit: nat,
    range: String,
    i: int,
)
    requires
        s.lines == Some(range),
        range_of(range@) is Ok,
        available(s, lines) is Ok,
    ensures
        choice(s, lines, limit) is Ok,
        choice(s, lines, limit)->Ok_0.picked.contains(i) <==> available(
            s,
            lines,
        )->Ok_0.0.contains(i) && range_of(range@)->Ok_0.0 <= i + 1 <= range_of(range@)->Ok_0.1,
{
    let (from, to) = range_of(range@)->Ok_0;
    lemma_filter_has(available(s, lines)->Ok_0.0, |k: int| from <= k + 1 <= to, i);
}

/// `--head N` shows the first N lines that the search left, `--tail N` the last
/// N, and `--all` every one of them. `--head` comes before `--tail`, and both
/// come before `--all`.
pub proof fn law_head_and_tail(s: LogSelect, lines: Seq<Seq<char>>, limit: nat, i: int)
    requires
        s.lines is None,
        available(s, lines) is Ok,
    ensures
        choice(s, lines, limit) is Ok,
        ({
            let chosen = available(s, lines)->Ok_0.0;
            let picked = choice(s, lines, limit)->Ok_0.picked;
            let most = if s.head is Some {
                s.head->0 as int
            } else if s.tail is Some {
                s.tail->0 as int
            } else if s.all {
                chosen.len() as int
            } else {
                limit as int
            };
            let skipped = if s.head is Some {
                0
            } else {
                chosen.len() - picked.len()
            };
            &&& picked.len() == if most < chosen.len() {
                most
            } else {
                chosen.len() as int
            }
            &&& 0 <= i < picked.len() ==> picked[i] == chosen[skipped + i]
        }),
{
}

/// With no search every line is there to show.
pub proof fn law_no_search_leaves_every_line(s: LogSelect, lines: Seq<Seq<char>>, i: int)
    requires
        s.grep is None,
    ensures
        available(s, lines) is Ok,
        available(s, lines)->Ok_0.0.len() == lines.len(),
        0 <= i < lines.len() ==> available(s, lines)->Ok_0.0[i] == i,
        available(s, lines)->Ok_0.1 is None,
{
}

/// A range is read as it is written, and it must go from a line to the same line
/// or a later one. Lines count from 1.
pub proof fn law_a_range_is_read_as_it_is_written(a: nat, b: nat)
    requires
        a <= usize::MAX,
        b <= usize::MAX,
    ensures
        1 <= a <= b ==> range_of(text::digits(a).push(':') + text::digits(b)) == Ok::<
            (nat, nat),
            Seq<char>,
        >((a, b)),
        a == 0 || b == 0 || a > b ==> range_of(text::digits(a).push(':') + text::digits(b)) is Err,
        range_of(text::digits(a)) is Err,
{
    let x = text::digits(a);
    let y = text::digits(b);
    lemma_digits_plain(a);
    lemma_digits_plain(b);
    let s = x.push(':') + y;
    assert(s[x.len() as int] == ':');
    assert forall|j: int| 0 <= j < x.len() implies s[j] != ':' by {
        assert(s[j] == x[j]);
    }
    text::lemma_next_is(s, ':', 0, x.len());
    assert(s.take(x.len() as int) == x);
    assert(s.skip(x.len() as int + 1) == y);
    text::law_a_number_is_read_as_it_is_written(a, usize::MAX as nat);
    text::law_a_number_is_read_as_it_is_written(b, usize::MAX as nat);
    text::lemma_next_is(x, ':', 0, x.len());
}

proof fn lemma_digits_plain(n: nat)
    ensures
        text::digits(n).len() > 0,
        forall|k: int| 0 <= k < text::digits(n).len() ==> '0' <= #[trigger] text::digits(n)[k] <= '9',
        text::trimmed(text::digits(n)) == text::digits(n),
    decreases n,
{
    if n >= 10 {
        lemma_digits_plain(n / 10);
    }
    let d = text::digits(n);
    text::lemma_lead(d, 0);
    text::lemma_last_solid(d, d.len() as int);
    assert(text::trimmed(d) == d);
}

/// One more line shows as its own text and a line feed. Its number stands before
/// it where the numbers are wanted, and `--` stands on a line of its own before
/// it exactly where lines of the log are missing between it and the one before.
pub proof fn law_one_more_shown_line(
    lines: Seq<Seq<char>>,
    picked: Seq<int>,
    n: nat,
    number: bool,
)
    requires
        n < picked.len(),
        rising(picked, lines.len()),
    ensures
        shown(lines, picked, 0, number).len() == 0,
        !number && (n == 0 || picked[n as int] == picked[n - 1] + 1) ==> shown(
            lines,
            picked,
            n + 1,
            number,
        ) == shown(lines, picked, n, number) + lines[picked[n as int]].push('\n'),
        !number && n > 0 && picked[n as int] > picked[n - 1] + 1 ==> shown(
            lines,
            picked,
            n + 1,
            number,
        ) == shown(lines, picked, n, number) + seq!['-', '-', '\n'] + lines[picked[n as int]].push(
            '\n',
        ),
        number && (n == 0 || picked[n as int] == picked[n - 1] + 1) ==> shown(
            lines,
            picked,
            n + 1,
            number,
        ) == shown(lines, picked, n, number) + text::padded(
            text::digits((picked[n as int] + 1) as nat),
            ' ',
            6,
        ) + seq![' ', ' '] + lines[picked[n as int]].push('\n'),
{
    reveal_strlit("--\n");
    reveal_strlit("");
    reveal_strlit("  ");
    reveal_strlit("\n");
    assert("--\n"@ == seq!['-', '-', '\n']);
    assert("  "@ == seq![' ', ' ']);
    let before = shown(lines, picked, n, number);
    let line = lines[picked[n as int]];
    assert(""@ == Seq::<char>::empty());
    assert(line + "\n"@ == line.push('\n'));
    let label = text::padded(text::digits((picked[n as int] + 1) as nat), ' ', 6);
    let empty = Seq::<char>::empty();
    assert(before + (empty + empty + line + "\n"@) == before + line.push('\n'));
    assert(before + ("--\n"@ + empty + line + "\n"@) == before + seq!['-', '-', '\n'] + line.push(
        '\n',
    ));
    assert(before + (empty + (label + "  "@) + line + "\n"@) == before + label + seq![' ', ' ']
        + line.push('\n'));
}

proof fn lemma_all_shown(lines: Seq<Seq<char>>, n: nat)
    requires
        n <= lines.len(),
    ensures
        shown(lines, positions(lines.len()), n, false) == text::ended(lines.take(n as int)),
    decreases n,
{
    let picked = positions(lines.len());
    if n == 0 {
        assert(lines.take(0) == Seq::<Seq<char>>::empty());
    } else {
        lemma_all_shown(lines, (n - 1) as nat);
        law_one_more_shown_line(lines, picked, (n - 1) as nat, false);
        text::lemma_ended_push(lines.take(n - 1), lines[n - 1]);
        assert(lines.take(n - 1).push(lines[n - 1]) == lines.take(n as int));
    }
}

/// With no option, a log of no more lines than the limit shows whole: each of
/// its lines with a line feed behind it. Nothing is hidden then, and nothing is
/// said to be.
pub proof fn law_a_short_log_shows_whole(
    s: &LogSelect,
    log: &str,
    limit: usize,
    r: Result<Selected, String>,
)
    requires
        call_ensures(LogSelect::apply, (s, log, limit), r),
        s.tail is None && s.head is None && s.lines is None && s.grep is None && !s.number,
        s.all || text::lines_of(log@).len() <= limit,
    ensures
        r is Ok,
        r->Ok_0.text@ == text::ended(text::lines_of(log@)),
        r->Ok_0.hidden == 0,
        !r->Ok_0.truncated,
        r->Ok_0.matches is None,
{
    let lines = text::lines_of(log@);
    law_no_search_leaves_every_line(*s, lines, 0);
    law_head_and_tail(*s, lines, limit as nat, 0);
    let c = choice(*s, lines, limit as nat)->Ok_0;
    assert(c.picked == positions(lines.len()));
    lemma_all_shown(lines, lines.len());
    assert(lines.take(lines.len() as int) == lines);
}

/// `--follow` refuses the options that count a total, and no other one.
pub proof fn law_what_follow_refuses(s: &LogSelect, r: Result<(), String>)
    requires
        call_ensures(LogSelect::check_with_follow, (s,), r),
    ensures
        r is Err <==> s.max_matches is Some || s.head is Some || s.lines is Some,
{
}

/// The notice gives the number of the matches, and where a limit cut them also
/// the number of those that it shows. With no search it gives the number of the
/// hidden lines, and it is missing exactly where nothing was cut.
pub proof fn law_what_the_notice_says(s: &Selected, r: Option<String>)
    requires
        call_ensures(Selected::notice, (s,), r),
    ensures
        r is None <==> s.matches is None && !s.truncated,
        s.matches is Some ==> r is Some && text::begins(
            r->0@,
            "... "@ + text::digits(s.matches->0 as nat) + " line(s) match"@,
        ),
        s.matches is None && s.truncated ==> r is Some && text::begins(
            r->0@,
            "... "@ + text::digits(s.hidden as nat) + " earlier line(s) are not shown."@,
        ),
{
    reveal_strlit(" line(s) match");
    reveal_strlit(" line(s) match.");
    reveal_strlit(" line(s) match, and qex shows the first ");
    reveal_strlit(" earlier line(s) are not shown.");
    reveal_strlit(
        " earlier line(s) are not shown. Use `--all`, `--head N` or `--tail N`.",
    );
    if s.matches is Some {
        let d = "... "@ + text::digits(s.matches->0 as nat);
        let want = d + " line(s) match"@;
        let t = r->0@;
        assert(" line(s) match."@.take(14) == " line(s) match"@);
        assert(" line(s) match, and qex shows the first "@.take(14) == " line(s) match"@);
        assert(t.subrange(0, want.len() as int) == want);
    } else if s.truncated {
        let d = "... "@ + text::digits(s.hidden as nat);
        let want = d + " earlier line(s) are not shown."@;
        let t = r->0@;
        assert(" earlier line(s) are not shown. Use `--all`, `--head N` or `--tail N`."@.take(31)
            == " earlier line(s) are not shown."@);
        assert(t.subrange(0, want.len() as int) == want);
    }
}

/// A range of two numbers is read as those numbers.
pub proof fn law_how_a_range_is_read(
    s: &str,
    a: usize,
    b: usize,
    r: Result<(usize, usize), String>,
)
    requires
        call_ensures(parse_range, (s,), r),
        s@ == text::digits(a as nat).push(':') + text::digits(b as nat),
    ensures
        r is Ok <==> 1 <= a <= b,
        r is Ok ==> r->Ok_0 == (a, b),
{
    law_a_range_is_read_as_it_is_written(a as nat, b as nat);
}

/// A search gives the number of the lines that match, the first of them up to its
/// limit, and the lines around those.
pub proof fn law_what_a_search_gives(
    s: &LogSelect,
    lines: &Vec<String>,
    pattern: &str,
    m: pattern::Meaning,
    r: Result<(Vec<usize>, usize, Vec<usize>), String>,
    i: int,
)
    requires
        call_ensures(LogSelect::search, (s, lines, pattern), r),
        pattern::meaning(pattern@, s.fixed) == Ok::<pattern::Meaning, Seq<char>>(m),
        0 <= i < lines@.len(),
    ensures
        r is Ok,
        r->Ok_0.1 == hits(text::views(lines@), m).len(),
        s.all || r->Ok_0.1 <= (if s.max_matches is Some {
            s.max_matches->0
        } else {
            100
        }) ==> (ints(r->Ok_0.2@).contains(i) <==> pattern::answers(m, lines@[i]@)),
        !s.all && s.max_matches is Some && r->Ok_0.1 > s.max_matches->0 ==> r->Ok_0.2@.len()
            == s.max_matches->0,
        s.context is None ==> (ints(r->Ok_0.0@).contains(i) <==> ints(r->Ok_0.2@).contains(i)),
{
    let views = text::views(lines@);
    assert(views[i] == lines@[i]@);
    law_first_matches(*s, views, pattern@);
    law_a_search_shows_the_lines_around_its_matches(*s, views, pattern@, i);
    law_the_matches_are_the_answers(views, m, i);
    let found = searched(*s, views, pattern@)->Ok_0;
    let all = hits(views, m);
    assert(ints(r->Ok_0.2@).len() == r->Ok_0.2@.len());
    if s.context is None {
        if found.lines.contains(i) {
            let k = choose|k: int| 0 <= k < found.kept.len() && #[trigger] found.kept[k] - 0 <= i
                <= found.kept[k] + 0;
            assert(found.kept[k] == i);
            assert(found.kept.contains(i));
        }
        if found.kept.contains(i) {
            let k = found.kept.index_of(i);
            assert(found.kept[k] - 0 <= i <= found.kept[k] + 0);
        }
    }
    assert(all.take(all.len() as int) == all);
}

/// The options that choose lines are the ones of the lines themselves.
pub proof fn law_which_options_choose_lines(s: &LogSelect, r: bool)
    requires
        call_ensures(LogSelect::is_explicit, (s,), r),
    ensures
        r <==> s.tail is Some || s.head is Some || s.lines is Some || s.grep is Some || s.all,
{
}

/// A search whose matches all show gives their number alone. A search with more
/// matches than it shows gives both numbers.
pub proof fn law_the_notice_of_a_search(s: &Selected, r: Option<String>)
    requires
        call_ensures(Selected::notice, (s,), r),
        s.matches is Some,
    ensures
        r is Some,
        s.matches->0 <= s.matches_shown ==> r->0@ == "... "@ + text::digits(s.matches->0 as nat)
            + " line(s) match."@,
        s.matches->0 > s.matches_shown ==> text::begins(
            r->0@,
            "... "@ + text::digits(s.matches->0 as nat) + " line(s) match, and qex shows the first "@
                + text::digits(s.matches_shown as nat),
        ),
{
    if s.matches->0 > s.matches_shown {
        let want = "... "@ + text::digits(s.matches->0 as nat)
            + " line(s) match, and qex shows the first "@ + text::digits(s.matches_shown as nat);
        assert(r->0@.subrange(0, want.len() as int) == want);
    }
}

/// A result is cut exactly where a line is hidden or a match is not shown, and
/// the hidden lines and the shown ones are together all that the search left.
pub proof fn law_what_a_selection_reports(
    s: &LogSelect,
    log: &str,
    limit: usize,
    r: Result<Selected, String>,
)
    requires
        call_ensures(LogSelect::apply, (s, log, limit), r),
        r is Ok,
    ensures
        r->Ok_0.truncated <==> r->Ok_0.hidden > 0 || (r->Ok_0.matches is Some && r->Ok_0.matches->0
            > r->Ok_0.matches_shown),
        r->Ok_0.matches is Some <==> s.grep is Some,
        s.grep is None ==> r->Ok_0.matches_shown == 0 && r->Ok_0.hidden <= text::lines_of(log@).len(),
{
    let lines = text::lines_of(log@);
    law_every_line_is_counted(*s, lines, limit as nat);
    if s.grep is None {
        let c = choice(*s, lines, limit as nat)->Ok_0;
        let none = Seq::<int>::empty();
        none.lemma_filter_len(|i: int| c.picked.contains(i));
    }
}

} // verus!
