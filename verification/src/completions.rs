//! The completions of a shell.
//!
//! The words of the commands come from the definition of the command line. The
//! functions here take out the commands that qex gives to itself, and they add
//! the part that asks qex for the jobs at the moment of the TAB.

use crate::text;
use vstd::prelude::*;
use vstd::string::*;

verus! {

/// A shell that qex writes completions for.
#[derive(Debug, Clone, Copy, PartialEq, Eq, Structural)]
pub enum Shell {
    Bash,
    Elvish,
    Fish,
    PowerShell,
    Zsh,
    /// A shell that qex does not treat.
    Other,
}

/// The commands that read a job.
pub const READS: &'static str = "status wait logs rerun clean";

/// The commands that take a job that operates.
pub const ACTIVE: &'static str = "kill";

/// The commands that take a job that waits.
pub const QUEUED: &'static str = "cancel";

// ---------------------------------------------------------------------------
// The hidden commands.
// ---------------------------------------------------------------------------

/// The line without the space at its start.
pub open spec fn undented(line: Seq<char>) -> Seq<char> {
    line.skip(text::lead(line) as int)
}

/// True when the line of a shell offers one of the commands.
pub open spec fn offers(shell: Shell, line: Seq<char>, hidden: Seq<Seq<char>>) -> bool {
    exists|i: int| 0 <= i < hidden.len() && offers_one(shell, line, #[trigger] hidden[i])
}

/// True when the line of a shell offers the command.
pub open spec fn offers_one(shell: Shell, line: Seq<char>, name: Seq<char>) -> bool {
    match shell {
        Shell::Zsh | Shell::Fish => text::holds(line, "'"@ + name + ":"@) || text::holds(
            line,
            "-a \""@ + name + "\""@,
        ),
        Shell::Elvish | Shell::PowerShell => text::begins(
            undented(line),
            "cand "@ + name + " "@,
        ) || text::holds(line, "::new('"@ + name + "', '"@ + name + "',"@),
        _ => false,
    }
}

/// The lines that offer none of the commands.
pub open spec fn unoffered(shell: Shell, lines: Seq<Seq<char>>, hidden: Seq<Seq<char>>) -> Seq<
    Seq<char>,
>
    decreases lines.len(),
{
    if lines.len() == 0 {
        Seq::empty()
    } else if offers(shell, lines.last(), hidden) {
        unoffered(shell, lines.drop_last(), hidden)
    } else {
        unoffered(shell, lines.drop_last(), hidden).push(lines.last())
    }
}

/// The word list of bash without the first `n` of the commands.
pub open spec fn without_words(line: Seq<char>, hidden: Seq<Seq<char>>, n: nat) -> Seq<char>
    decreases n,
{
    if n == 0 {
        line
    } else {
        let before = without_words(line, hidden, (n - 1) as nat);
        let name = hidden[n - 1];
        text::replaced(
            text::replaced(before, " "@ + name + "\""@, "\""@, 0),
            " "@ + name + " "@,
            " "@,
            0,
        )
    }
}

/// A line of bash without the commands. Only a list of words changes.
pub open spec fn bash_line(line: Seq<char>, hidden: Seq<Seq<char>>) -> Seq<char> {
    if text::begins(undented(line), "opts=\""@) {
        without_words(line, hidden, hidden.len())
    } else {
        line
    }
}

/// The completions without the commands.
pub open spec fn visible_part(t: Seq<char>, hidden: Seq<Seq<char>>, shell: Shell) -> Seq<char> {
    let lines = text::lines_of(t);
    if hidden.len() == 0 {
        t
    } else {
        match shell {
            Shell::Bash => text::joined(
                Seq::new(lines.len(), |i: int| bash_line(lines[i], hidden)),
                "\n"@,
            ),
            Shell::Other => t,
            _ => text::joined(unoffered(shell, lines, hidden), "\n"@),
        }
    }
}

fn undent(line: &str) -> (r: String)
    ensures
        r@ == undented(line@),
{
    let c = text::chars(line);
    let mut i: usize = 0;
    while i < c.len() && text::is_white(c[i])
        invariant
            c@ == line@,
            i <= c@.len(),
            forall|k: int| 0 <= k < i ==> text::white(#[trigger] c@[k]),
        decreases c@.len() - i,
    {
        i += 1;
    }
    proof {
        text::lemma_lead(line@, i as int);
    }
    let out = text::piece(&c, i, c.len());
    assert(line@.subrange(i as int, line@.len() as int) == line@.skip(i as int));
    out
}

fn around(start: &str, name: &str, end: &str) -> (r: String)
    ensures
        r@ == start@ + name@ + end@,
{
    let mut m = text::owned(start);
    m.append(name);
    m.append(end);
    m
}

fn holds_text(line: &str, part: &str) -> (r: bool)
    ensures
        r == text::holds(line@, part@),
{
    text::has(&text::chars(line), &text::chars(part))
}

fn is_offer(shell: Shell, line: &str, name: &str) -> (r: bool)
    ensures
        r == offers_one(shell, line@, name@),
{
    match shell {
        Shell::Zsh | Shell::Fish => {
            holds_text(line, around("'", name, ":").as_str()) || holds_text(
                line,
                around("-a \"", name, "\"").as_str(),
            )
        },
        Shell::Elvish | Shell::PowerShell => {
            let mut pair = around("::new('", name, "', '");
            pair.append(name);
            pair.append("',");
            text::starts_with(undent(line).as_str(), around("cand ", name, " ").as_str())
                || holds_text(line, pair.as_str())
        },
        _ => false,
    }
}

fn is_offered(shell: Shell, line: &str, hidden: &Vec<String>) -> (r: bool)
    ensures
        r == offers(shell, line@, text::views(hidden@)),
{
    let ghost names = text::views(hidden@);
    let mut i: usize = 0;
    while i < hidden.len()
        invariant
            i <= hidden@.len(),
            names == text::views(hidden@),
            forall|k: int| 0 <= k < i ==> !offers_one(shell, line@, #[trigger] names[k]),
        decreases hidden@.len() - i,
    {
        assert(names[i as int] == hidden@[i as int]@);
        if is_offer(shell, line, hidden[i].as_str()) {
            return true;
        }
        i += 1;
    }
    assert(names.len() == hidden@.len());
    false
}

fn clean_words(line: &str, hidden: &Vec<String>) -> (r: String)
    ensures
        r@ == bash_line(line@, text::views(hidden@)),
{
    if !text::starts_with(undent(line).as_str(), "opts=\"") {
        return text::owned(line);
    }
    let ghost names = text::views(hidden@);
    let mut kept = text::owned(line);
    let mut i: usize = 0;
    while i < hidden.len()
        invariant
            i <= hidden@.len(),
            names == text::views(hidden@),
            kept@ == without_words(line@, names, i as nat),
        decreases hidden@.len() - i,
    {
        assert(names[i as int] == hidden@[i as int]@);
        let name = hidden[i].as_str();
        let last = around(" ", name, "\"");
        let inner = around(" ", name, " ");
        proof {
            reveal_strlit(" ");
        }
        let once = text::replace(kept.as_str(), last.as_str(), "\"");
        kept = text::replace(once.as_str(), inner.as_str(), " ");
        i += 1;
    }
    assert(names.len() == hidden@.len());
    kept
}

/// Takes the hidden commands out of the completions. Each shell holds them in a
/// different form, so each has its own removal. A shell that qex does not treat
/// keeps them.
pub fn remove_hidden(t: &str, hidden: &Vec<String>, shell: Shell) -> (r: String)
    ensures
        r@ == visible_part(t@, text::views(hidden@), shell),
{
    let ghost names = text::views(hidden@);
    assert(names.len() == hidden@.len());
    if hidden.len() == 0 {
        return text::owned(t);
    }
    let lines = text::lines(t);
    let ghost all = text::lines_of(t@);
    match shell {
        Shell::Other => text::owned(t),
        Shell::Bash => {
            let ghost want = Seq::new(all.len(), |i: int| bash_line(all[i], names));
            let mut out: Vec<String> = Vec::new();
            let mut i: usize = 0;
            while i < lines.len()
                invariant
                    i <= lines@.len(),
                    names == text::views(hidden@),
                    all == text::views(lines@),
                    want == Seq::new(all.len(), |i: int| bash_line(all[i], names)),
                    text::views(out@) == want.take(i as int),
                decreases lines@.len() - i,
            {
                assert(all[i as int] == lines@[i as int]@);
                let ghost before = out@;
                let one = clean_words(lines[i].as_str(), hidden);
                let ghost word = one@;
                out.push(one);
                assert(text::views(out@) == text::views(before).push(word));
                assert(want.take(i + 1) == want.take(i as int).push(want[i as int]));
                i += 1;
            }
            assert(all.len() == lines@.len());
            assert(want.take(want.len() as int) == want);
            text::join(&out, "\n")
        },
        _ => {
            let mut out: Vec<String> = Vec::new();
            let mut i: usize = 0;
            while i < lines.len()
                invariant
                    i <= lines@.len(),
                    names == text::views(hidden@),
                    all == text::views(lines@),
                    text::views(out@) == unoffered(shell, all.take(i as int), names),
                decreases lines@.len() - i,
            {
                assert(all.take(i + 1).drop_last() == all.take(i as int));
                assert(all[i as int] == lines@[i as int]@);
                let ghost before = out@;
                if !is_offered(shell, lines[i].as_str(), hidden) {
                    out.push(lines[i].clone());
                    assert(text::views(out@) == text::views(before).push(all[i as int]));
                }
                i += 1;
            }
            assert(all.take(all.len() as int) == all);
            text::join(&out, "\n")
        },
    }
}

/// No line that stays offers a hidden command, and every other line stays in its
/// order.
pub proof fn law_no_line_offers_a_hidden_command(
    shell: Shell,
    lines: Seq<Seq<char>>,
    hidden: Seq<Seq<char>>,
    k: int,
)
    requires
        0 <= k < unoffered(shell, lines, hidden).len(),
    ensures
        !offers(shell, unoffered(shell, lines, hidden)[k], hidden),
        lines.contains(unoffered(shell, lines, hidden)[k]),
    decreases lines.len(),
{
    let rest = unoffered(shell, lines.drop_last(), hidden);
    if k < rest.len() {
        law_no_line_offers_a_hidden_command(shell, lines.drop_last(), hidden, k);
        let i = choose|i: int| 0 <= i < lines.drop_last().len() && lines.drop_last()[i] == rest[k];
        assert(lines[i] == rest[k]);
    } else {
        assert(lines[lines.len() - 1] == lines.last());
    }
}

// ---------------------------------------------------------------------------
// The options that take a value.
// ---------------------------------------------------------------------------

/// One argument of a command.
#[derive(Debug)]
pub struct Argument {
    /// True when the argument takes a value. A flag takes none.
    pub takes_values: bool,
    pub long: Option<String>,
    pub aliases: Vec<String>,
    pub short: Option<char>,
}

/// One command of the command line.
#[derive(Debug)]
pub struct SubCommand {
    pub name: String,
    pub arguments: Vec<Argument>,
}

/// True when the word is one of the words of the list.
pub open spec fn is_word(list: Seq<char>, word: Seq<char>) -> bool {
    text::parts(list, ' ').contains(word)
}

/// True for a command that takes a job.
pub open spec fn takes_job(name: Seq<char>) -> bool {
    is_word(READS@, name) || is_word(ACTIVE@, name) || is_word(QUEUED@, name)
}

/// The words of one argument.
pub open spec fn argument_words(arg: Argument) -> Seq<Seq<char>> {
    if !arg.takes_values {
        Seq::empty()
    } else {
        long_words(arg) + alias_words(arg) + short_words(arg)
    }
}

/// The word of the long form.
pub open spec fn long_words(arg: Argument) -> Seq<Seq<char>> {
    match arg.long {
        Some(l) => seq!["--"@ + l@],
        None => Seq::empty(),
    }
}

/// The words of the other long forms.
pub open spec fn alias_words(arg: Argument) -> Seq<Seq<char>> {
    Seq::new(arg.aliases@.len(), |i: int| "--"@ + arg.aliases@[i]@)
}

/// The word of the short form.
pub open spec fn short_words(arg: Argument) -> Seq<Seq<char>> {
    match arg.short {
        Some(c) => seq!["-"@.push(c)],
        None => Seq::empty(),
    }
}

/// True when the word is an option with a value of a command that takes a job.
pub open spec fn valued(commands: Seq<SubCommand>, word: Seq<char>) -> bool {
    exists|i: int, k: int|
        0 <= i < commands.len() && 0 <= k < commands[i].arguments@.len() && takes_job(
            commands[i].name@,
        ) && argument_words(#[trigger] commands[i].arguments@[k]).contains(word)
}

/// The words are in order, and none stands twice.
pub open spec fn sorted(words: Seq<Seq<char>>) -> bool {
    forall|i: int, j: int|
        0 <= i < j < words.len() ==> text::before(#[trigger] words[i], #[trigger] words[j])
}

fn word_in(list: &str, word: &str) -> (r: bool)
    ensures
        r == is_word(list@, word@),
{
    text::contains(&text::split(list, ' '), word)
}

fn insert_word(words: &mut Vec<String>, word: String)
    requires
        sorted(text::views(old(words)@)),
    ensures
        sorted(text::views(final(words)@)),
        forall|w: Seq<char>| #[trigger]
            text::views(final(words)@).contains(w) <==> text::views(old(words)@).contains(w) || w
                == word@,
{
    let ghost before = text::views(words@);
    let mut i: usize = 0;
    while i < words.len() && text::is_before(words[i].as_str(), word.as_str())
        invariant
            i <= words@.len(),
            before == text::views(words@),
            forall|k: int| 0 <= k < i ==> text::before(#[trigger] before[k], word@),
        decreases words@.len() - i,
    {
        assert(before[i as int] == words@[i as int]@);
        i += 1;
    }
    if i < words.len() {
        assert(before[i as int] == words@[i as int]@);
        if text::same(words[i].as_str(), word.as_str()) {
            return ;
        }
    }
    let ghost w = word@;
    words.insert(i, word);
    proof {
        let after = text::views(words@);
        assert(after == before.insert(i as int, w));
        if i < before.len() {
            text::lemma_before_total(before[i as int], w);
        }
        assert forall|a: int, b: int| 0 <= a < b < after.len() implies text::before(
            #[trigger] after[a],
            #[trigger] after[b],
        ) by {
            if b < i {
                assert(text::before(before[a], before[b]));
            } else if b == i {
                assert(text::before(before[a], w));
            } else if a < i {
                assert(text::before(before[a], before[b - 1]));
            } else if a == i {
                if b - 1 > i {
                    assert(text::before(before[i as int], before[b - 1]));
                    text::lemma_before_chain(w, before[i as int], before[b - 1]);
                }
            } else {
                assert(text::before(before[a - 1], before[b - 1]));
            }
        }
        assert forall|x: Seq<char>| #[trigger] after.contains(x) <==> before.contains(x) || x
            == w by {
            if before.contains(x) {
                let k = choose|k: int| 0 <= k < before.len() && before[k] == x;
                if k < i {
                    assert(after[k] == x);
                } else {
                    assert(after[k + 1] == x);
                }
            }
            assert(after[i as int] == w);
            if after.contains(x) && x != w {
                let k = choose|k: int| 0 <= k < after.len() && after[k] == x;
                if k < i {
                    assert(before[k] == x);
                } else {
                    assert(before[k - 1] == x);
                }
            }
        }
    }
}

/// Adds the words of an argument.
fn add_words(words: &mut Vec<String>, arg: &Argument)
    requires
        sorted(text::views(old(words)@)),
    ensures
        sorted(text::views(final(words)@)),
        forall|w: Seq<char>| #[trigger]
            text::views(final(words)@).contains(w) <==> text::views(old(words)@).contains(w)
                || argument_words(*arg).contains(w),
{
    let ghost start = text::views(words@);
    let ghost all = argument_words(*arg);
    if !arg.takes_values {
        return ;
    }
    let ghost first = long_words(*arg);
    let ghost second = alias_words(*arg);
    let ghost third = short_words(*arg);
    match &arg.long {
        Some(l) => {
            let mut w = text::owned("--");
            w.append(l.as_str());
            insert_word(words, w);
            assert(first[0] == "--"@ + l@);
        },
        None => {},
    }
    let mut i: usize = 0;
    while i < arg.aliases.len()
        invariant
            i <= arg.aliases@.len(),
            sorted(text::views(words@)),
            second == alias_words(*arg),
            forall|w: Seq<char>| #[trigger]
                text::views(words@).contains(w) <==> start.contains(w) || first.contains(w)
                    || second.take(i as int).contains(w),
        decreases arg.aliases@.len() - i,
    {
        let mut w = text::owned("--");
        w.append(arg.aliases[i].as_str());
        let ghost before = text::views(words@);
        let ghost word = w@;
        insert_word(words, w);
        proof {
            assert(second.take(i + 1) == second.take(i as int).push(word));
            assert forall|x: Seq<char>| #[trigger] text::views(words@).contains(x) <==> start.contains(
                x,
            ) || first.contains(x) || second.take(i + 1).contains(x) by {
                assert(text::views(words@).contains(x) <==> before.contains(x) || x == word);
                lemma_push(second.take(i as int), word, x);
            }
        }
        i += 1;
    }
    assert(second.take(second.len() as int) == second);
    let ghost before = text::views(words@);
    match arg.short {
        Some(c) => {
            let mut w = text::owned("-");
            w.push(c);
            insert_word(words, w);
            assert(third[0] == "-"@.push(c));
        },
        None => {},
    }
    proof {
        assert forall|x: Seq<char>| #[trigger] text::views(words@).contains(x) <==> start.contains(
            x,
        ) || all.contains(x) by {
            lemma_three(first, second, third, x);
            assert(all == first + second + third);
            assert(text::views(words@).contains(x) <==> before.contains(x) || third.contains(x));
        }
    }
}

proof fn lemma_push(s: Seq<Seq<char>>, x: Seq<char>, y: Seq<char>)
    ensures
        s.push(x).contains(y) <==> s.contains(y) || x == y,
{
    if s.contains(y) {
        let k = choose|k: int| 0 <= k < s.len() && s[k] == y;
        assert(s.push(x)[k] == y);
    }
    assert(s.push(x)[s.len() as int] == x);
    if s.push(x).contains(y) && x != y {
        let k = choose|k: int| 0 <= k < s.push(x).len() && s.push(x)[k] == y;
        assert(s[k] == y);
    }
}

proof fn lemma_three(a: Seq<Seq<char>>, b: Seq<Seq<char>>, c: Seq<Seq<char>>, x: Seq<char>)
    ensures
        (a + b + c).contains(x) <==> a.contains(x) || b.contains(x) || c.contains(x),
{
    let all = a + b + c;
    if a.contains(x) {
        let k = choose|k: int| 0 <= k < a.len() && a[k] == x;
        assert(all[k] == x);
    }
    if b.contains(x) {
        let k = choose|k: int| 0 <= k < b.len() && b[k] == x;
        assert(all[a.len() + k] == x);
    }
    if c.contains(x) {
        let k = choose|k: int| 0 <= k < c.len() && c[k] == x;
        assert(all[a.len() + b.len() + k] == x);
    }
    if all.contains(x) {
        let k = choose|k: int| 0 <= k < all.len() && all[k] == x;
        if k < a.len() {
            assert(a[k] == x);
        } else if k < a.len() + b.len() {
            assert(b[k - a.len()] == x);
        } else {
            assert(c[k - a.len() - b.len()] == x);
        }
    }
}

/// True when one of the first `n` arguments of a command gives the word.
spec fn valued_in(arguments: Seq<Argument>, n: int, word: Seq<char>) -> bool {
    exists|k: int| 0 <= k < n && argument_words(#[trigger] arguments[k]).contains(word)
}

/// Gives the options that take a value, of the commands that take a job: each
/// word one time, in order.
///
/// bash gives the completion the word before the cursor and nothing else, so the
/// completion must know which of those words takes the next word.
pub fn options_that_take_a_value(commands: &Vec<SubCommand>) -> (r: Vec<String>)
    ensures
        sorted(text::views(r@)),
        forall|w: Seq<char>| #[trigger] text::views(r@).contains(w) <==> valued(commands@, w),
{
    let mut words: Vec<String> = Vec::new();
    let mut i: usize = 0;
    assert(text::views(words@) == Seq::<Seq<char>>::empty());
    while i < commands.len()
        invariant
            i <= commands@.len(),
            sorted(text::views(words@)),
            forall|w: Seq<char>| #[trigger]
                text::views(words@).contains(w) <==> valued(commands@.take(i as int), w),
        decreases commands@.len() - i,
    {
        let ghost before = text::views(words@);
        let ghost command = commands@[i as int];
        let ghost args = command.arguments@;
        let name = commands[i].name.as_str();
        let takes = word_in(READS, name) || word_in(ACTIVE, name) || word_in(QUEUED, name);
        if takes {
            let mut k: usize = 0;
            while k < commands[i].arguments.len()
                invariant
                    i < commands@.len(),
                    args == commands@[i as int].arguments@,
                    k <= args.len(),
                    sorted(text::views(words@)),
                    forall|w: Seq<char>| #[trigger]
                        text::views(words@).contains(w) <==> before.contains(w) || valued_in(
                            args,
                            k as int,
                            w,
                        ),
                decreases args.len() - k,
            {
                let ghost inner = text::views(words@);
                add_words(&mut words, &commands[i].arguments[k]);
                proof {
                    assert forall|x: Seq<char>| #[trigger]
                        text::views(words@).contains(x) <==> before.contains(x) || valued_in(
                            args,
                            k + 1,
                            x,
                        ) by {
                        assert(text::views(words@).contains(x) <==> inner.contains(x)
                            || argument_words(args[k as int]).contains(x));
                        if valued_in(args, k + 1, x) {
                            let m = choose|m: int|
                                0 <= m < k + 1 && argument_words(#[trigger] args[m]).contains(x);
                            if m < k {
                                assert(valued_in(args, k as int, x));
                            }
                        }
                        if valued_in(args, k as int, x) {
                            let m = choose|m: int|
                                0 <= m < k && argument_words(#[trigger] args[m]).contains(x);
                            assert(argument_words(args[m]).contains(x));
                        }
                    }
                }
                k += 1;
            }
        }
        proof {
            let a = commands@.take(i as int);
            let b = commands@.take(i + 1);
            assert forall|x: Seq<char>| #[trigger] text::views(words@).contains(x) <==> valued(
                b,
                x,
            ) by {
                lemma_valued_step(commands@, i as int, x);
            }
        }
        i += 1;
    }
    assert(commands@.take(commands@.len() as int) == commands@);
    words
}

proof fn lemma_valued_step(commands: Seq<SubCommand>, i: int, word: Seq<char>)
    requires
        0 <= i < commands.len(),
    ensures
        valued(commands.take(i + 1), word) <==> valued(commands.take(i), word) || (takes_job(
            commands[i].name@,
        ) && valued_in(commands[i].arguments@, commands[i].arguments@.len() as int, word)),
{
    let a = commands.take(i);
    let b = commands.take(i + 1);
    if valued(a, word) {
        let (m, k) = choose|m: int, k: int|
            0 <= m < a.len() && 0 <= k < a[m].arguments@.len() && takes_job(a[m].name@)
                && argument_words(#[trigger] a[m].arguments@[k]).contains(word);
        assert(b[m] == a[m]);
        assert(argument_words(b[m].arguments@[k]).contains(word));
    }
    if takes_job(commands[i].name@) && valued_in(
        commands[i].arguments@,
        commands[i].arguments@.len() as int,
        word,
    ) {
        let args = commands[i].arguments@;
        let k = choose|k: int| 0 <= k < args.len() && argument_words(#[trigger] args[k]).contains(word);
        assert(b[i] == commands[i]);
        assert(argument_words(b[i].arguments@[k]).contains(word));
    }
    if valued(b, word) {
        let (m, k) = choose|m: int, k: int|
            0 <= m < b.len() && 0 <= k < b[m].arguments@.len() && takes_job(b[m].name@)
                && argument_words(#[trigger] b[m].arguments@[k]).contains(word);
        if m < i {
            assert(a[m] == b[m]);
            assert(argument_words(a[m].arguments@[k]).contains(word));
        } else {
            assert(argument_words(commands[i].arguments@[k]).contains(word));
        }
    }
}

/// The part of the bash completions that asks for the jobs, up to the options
/// that take a value.
pub const BASH_START: &'static str = "
# The ids and the names of the jobs. `qex __complete` reads the records on the
# disk, so a press of TAB starts no coordinator.
_qex_jobs() {
    local subcommand=\"\" word
    for word in \"${COMP_WORDS[@]:1}\"; do
        case \"$word\" in
            -*) ;;
            *) subcommand=\"$word\"; break ;;
        esac
    done

    local what=\"\"
    case \" status wait logs rerun clean \" in *\" $subcommand \"*) what=\"ids\" ;; esac
    case \" kill \" in *\" $subcommand \"*) what=\"active\" ;; esac
    case \" cancel \" in *\" $subcommand \"*) what=\"queued\" ;; esac
    [ -n \"$what\" ] || return 0

    local cur=\"${COMP_WORDS[COMP_CWORD]}\"
    # An option, and not a job. Leave those to the part above.
    case \"$cur\" in -*) return 0 ;; esac

    # The word before takes a VALUE, so this word is that value and not a job:
    # `qex kill --signal <TAB>` must offer a signal.
    #
    # The test names the options that take a value, and it does not ask whether
    # the word starts with a dash. A flag such as `--json` takes no value, so
    # `qex status --json <TAB>` is still a job.
    local prev=\"${COMP_WORDS[COMP_CWORD-1]}\"
    case \" ";

/// The part of the bash completions behind those options.
pub const BASH_END: &'static str = " \" in *\" $prev \"*) return 0 ;; esac

    # Read the candidates one line at a time, and compare them as text.
    #
    # `compgen -W` EXPANDS ITS WORD LIST AGAIN, so a job named
    # `$(rm -rf ~)` would run when somebody pressed TAB. An agent chooses the
    # names of the jobs, and a person presses the TAB, so that name is not
    # trusted text. This loop expands nothing, and it keeps a name that holds a
    # space in one piece.
    local candidate
    while IFS= read -r candidate; do
        [ -n \"$candidate\" ] || continue
        case \"$candidate\" in \"$cur\"*) ;; *) continue ;; esac
        # Put the name on the line in a form that the shell reads as ONE word.
        #
        # bash writes a candidate to the line as it stands, so the name
        # `x; rm -rf ~` would put `; rm -rf ~` on the line beside the command,
        # and the next press of ENTER would then run it. `printf %q` puts a
        # backslash before each character that the shell reads, so the name
        # stays one argument of qex.
        #
        # `compopt -o filenames` asks bash to do the same work, and this code
        # used it first. bash then treats each name as a FILE: a job with the
        # name of a directory got a `/` after it, `$HOME` became a directory as
        # well, and a name that starts with `~` was expanded to a home
        # directory. Each of the three gave qex a name that no job has.
        # `printf %q` has none of that behaviour. It was measured on bash
        # 5.1.16 and on bash 3.2.57, and it gave the stored name in each.
        printf -v candidate '%q' \"$candidate\"
        # A leading `~` as well. bash 5.1 escapes it above and bash 3.2 does
        # NOT, and bash then reads `~/x` on the line as a home directory. A
        # name is not a path, so the word keeps the character that it holds.
        case \"$candidate\" in \"~\"*) candidate=\"\\\\$candidate\" ;; esac
        COMPREPLY[${#COMPREPLY[@]}]=\"$candidate\"
    done < <(qex __complete \"$what\" 2>/dev/null)
}

_qex_with_jobs() {
    _qex \"$@\"
    _qex_jobs
}

# `-o nosort` came with bash 4.4, and `complete` refuses the WHOLE command when
# it meets an option name that it does not know. Without this test, sourcing
# this file on the bash 3.2 of macOS wrote `complete: nosort: invalid option
# name`, bound nothing, and the jobs never arrived. clap gates its own line in
# the same way, above.
#
# Do not answer that by dropping `-o nosort`: it is what keeps the newest job
# first, and bash sorts the candidates again without it.
if [[ \"${BASH_VERSINFO[0]}\" -eq 4 && \"${BASH_VERSINFO[1]}\" -ge 4 || \"${BASH_VERSINFO[0]}\" -gt 4 ]]; then
    complete -F _qex_with_jobs -o nosort -o bashdefault -o default qex
else
    complete -F _qex_with_jobs -o bashdefault -o default qex
fi
";

/// The part of the fish completions that asks for the jobs.
pub const FISH: &'static str = "
# The ids and the names of the jobs. `qex __complete` reads the records on the
# disk, so a press of TAB starts no coordinator.
complete -c qex -n \"__fish_seen_subcommand_from status wait logs rerun clean\" -f -a \"(qex __complete ids)\"
complete -c qex -n \"__fish_seen_subcommand_from kill\" -f -a \"(qex __complete active)\"
complete -c qex -n \"__fish_seen_subcommand_from cancel\" -f -a \"(qex __complete queued)\"
";

/// The function of the zsh completions that asks for the jobs.
pub const ZSH: &'static str = "
# The ids and the names of the jobs. `qex __complete` reads the records on the
# disk, so a press of TAB starts no coordinator.
_qex_jobs() {
    local -a candidates
    candidates=(${(f)\"$(qex __complete $1 2>/dev/null)\"})
    (( ${#candidates} )) && compadd -a candidates
}
";

// ---------------------------------------------------------------------------
// The jobs.
// ---------------------------------------------------------------------------

/// The part of the completions that asks qex for the ids and the names.
pub open spec fn jobs_part(shell: Shell, valued: Seq<char>) -> Seq<char> {
    match shell {
        Shell::Bash => BASH_START@ + valued + BASH_END@,
        Shell::Fish => FISH@,
        _ => ""@,
    }
}

/// Gives the part of the completions that asks qex for the ids and the names.
/// zsh has its part inside the file, and the other shells get none.
pub fn dynamic_part(shell: Shell, valued: &str) -> (r: String)
    ensures
        r@ == jobs_part(shell, valued@),
{
    match shell {
        Shell::Bash => {
            let mut m = text::owned(BASH_START);
            m.append(valued);
            m.append(BASH_END);
            m
        },
        Shell::Fish => text::owned(FISH),
        _ => text::owned(""),
    }
}

/// The set of jobs that a command offers.
pub open spec fn set_of(name: Seq<char>) -> Option<Seq<char>> {
    if is_word(READS@, name) {
        Some("ids"@)
    } else if is_word(ACTIVE@, name) {
        Some("active"@)
    } else if is_word(QUEUED@, name) {
        Some("queued"@)
    } else {
        None
    }
}

fn set_for(name: &str) -> (r: Option<&'static str>)
    ensures
        match r {
            Some(s) => set_of(name@) == Some(s@),
            None => set_of(name@) is None,
        },
{
    if word_in(READS, name) {
        Some("ids")
    } else if word_in(ACTIVE, name) {
        Some("active")
    } else if word_in(QUEUED, name) {
        Some("queued")
    } else {
        None
    }
}

/// True for a round bracket.
pub open spec fn bracket(c: char) -> bool {
    c == '(' || c == ')'
}

/// The text without the round brackets at its start.
pub open spec fn no_lead(s: Seq<char>) -> Seq<char>
    decreases s.len(),
{
    if s.len() > 0 && bracket(s[0]) {
        no_lead(s.skip(1))
    } else {
        s
    }
}

/// The text without the round brackets at its end.
pub open spec fn no_trail(s: Seq<char>) -> Seq<char>
    decreases s.len(),
{
    if s.len() > 0 && bracket(s.last()) {
        no_trail(s.drop_last())
    } else {
        s
    }
}

fn unbracket(s: &str) -> (r: String)
    ensures
        r@ == no_trail(no_lead(s@)),
{
    let c = text::chars(s);
    let mut i: usize = 0;
    assert(s@.skip(0) == s@);
    while i < c.len() && (c[i] == '(' || c[i] == ')')
        invariant
            c@ == s@,
            i <= c@.len(),
            no_lead(s@) == no_lead(s@.skip(i as int)),
        decreases c@.len() - i,
    {
        assert(s@.skip(i as int).skip(1) == s@.skip(i + 1));
        i += 1;
    }
    let ghost rest = s@.skip(i as int);
    assert(no_lead(s@) == rest);
    let mut n: usize = c.len();
    assert(rest.take(rest.len() as int) == rest);
    while n > i && (c[n - 1] == '(' || c[n - 1] == ')')
        invariant
            c@ == s@,
            i <= n <= c@.len(),
            rest == s@.skip(i as int),
            no_trail(rest) == no_trail(rest.take(n - i)),
        decreases n,
    {
        assert(rest.take(n - i).drop_last() == rest.take(n - 1 - i));
        n -= 1;
    }
    let out = text::piece(&c, i, n);
    assert(s@.subrange(i as int, n as int) == rest.take(n - i));
    out
}

/// The end of a line of an argument with no action of its own.
pub const DEFAULT_ACTION: &'static str = ":_default' \\";

/// True for the line of a positional argument. An option line starts with the
/// name of the option, and its value is not a job.
pub open spec fn positional(line: Seq<char>) -> bool {
    text::begins(line, "':"@) || text::begins(line, "'::"@) || text::begins(line, "'*::"@)
}

/// What the file is about at a line: if the function stands in it, and the set of
/// the command whose arguments these are.
pub struct Place {
    pub done: bool,
    pub here: Option<Seq<char>>,
}

/// What comes before a line is taken: `(kill)` opens the arguments of
/// `qex kill`.
pub open spec fn opened(place: Place, line: Seq<char>) -> Place {
    if text::begins(line, "("@) && text::finishes(line, ")"@) {
        Place { here: set_of(no_trail(no_lead(line))), ..place }
    } else {
        place
    }
}

/// The lines that take the place of a line, and the place after it.
pub open spec fn zsh_line(place: Place, line: Seq<char>) -> (Place, Seq<Seq<char>>) {
    if !place.done && text::trimmed(line) == "#compdef qex"@ {
        (Place { done: true, ..place }, seq![line, ZSH@])
    } else {
        let now = opened(place, line);
        match now.here {
            Some(what) => if positional(line) && text::finishes(line, DEFAULT_ACTION@) {
                (
                    now,
                    seq![
                        line.take(line.len() - DEFAULT_ACTION@.len()) + ": _qex_jobs "@ + what
                            + "' \\"@,
                    ],
                )
            } else {
                (now, seq![line])
            },
            None => (now, seq![line]),
        }
    }
}

/// The lines of the file, and the place behind them.
pub open spec fn zsh_lines(lines: Seq<Seq<char>>) -> (Place, Seq<Seq<char>>)
    decreases lines.len(),
{
    if lines.len() == 0 {
        (Place { done: false, here: None }, Seq::empty())
    } else {
        let before = zsh_lines(lines.drop_last());
        let one = zsh_line(before.0, lines.last());
        (one.0, before.1 + one.1)
    }
}

/// The zsh completions with the jobs.
pub open spec fn zsh_text(t: Seq<char>) -> Seq<char> {
    text::joined(zsh_lines(text::lines_of(t)).1.push(""@), "\n"@)
}

fn push_line(lines: &mut Vec<String>, line: String)
    ensures
        text::views(final(lines)@) == text::views(old(lines)@).push(line@),
{
    let ghost before = lines@;
    let ghost l = line@;
    lines.push(line);
    assert(text::views(lines@) == text::views(before).push(l));
}

/// Makes the job arguments of the zsh completions offer the jobs.
///
/// The function goes below the `#compdef` line, because the file gives the
/// completion to the shell in its last lines. The action then starts with a
/// space: without it zsh reads the action as one name and offers nothing.
pub fn zsh_jobs(t: &str, shell: Shell) -> (r: String)
    ensures
        r@ == if shell == Shell::Zsh {
            zsh_text(t@)
        } else {
            t@
        },
{
    match shell {
        Shell::Zsh => {},
        _ => {
            return text::owned(t);
        },
    }
    let lines = text::lines(t);
    let ghost all = text::lines_of(t@);
    let mut done = false;
    let mut here: Option<&'static str> = None;
    let mut out: Vec<String> = Vec::new();
    assert(text::views(out@) == Seq::<Seq<char>>::empty());
    let mut i: usize = 0;
    while i < lines.len()
        invariant
            i <= lines@.len(),
            all == text::views(lines@),
            done == zsh_lines(all.take(i as int)).0.done,
            match here {
                Some(s) => zsh_lines(all.take(i as int)).0.here == Some(s@),
                None => zsh_lines(all.take(i as int)).0.here is None,
            },
            text::views(out@) == zsh_lines(all.take(i as int)).1,
        decreases lines@.len() - i,
    {
        assert(all.take(i + 1).drop_last() == all.take(i as int));
        assert(all[i as int] == lines@[i as int]@);
        let ghost place = zsh_lines(all.take(i as int)).0;
        let ghost before = text::views(out@);
        let line = lines[i].as_str();
        if !done && text::same(text::trim(line).as_str(), "#compdef qex") {
            push_line(&mut out, text::owned(line));
            push_line(&mut out, text::owned(ZSH));
            done = true;
            assert(text::views(out@) == before + seq![line@, ZSH@]);
        } else {
            if text::starts_with(line, "(") && text::ends_with(line, ")") {
                here = set_for(unbracket(line).as_str());
            }
            let is_job = (text::starts_with(line, "':") || text::starts_with(line, "'::")
                || text::starts_with(line, "'*::")) && text::ends_with(line, DEFAULT_ACTION);
            match here {
                Some(what) => {
                    if is_job {
                        let c = text::chars(line);
                        let n: usize = c.len() - text::chars(DEFAULT_ACTION).len();
                        let mut one = text::piece(&c, 0, n);
                        assert(line@.subrange(0, n as int) == line@.take(n as int));
                        one.append(": _qex_jobs ");
                        one.append(what);
                        one.append("' \\");
                        let ghost word = one@;
                        push_line(&mut out, one);
                        assert(text::views(out@) == before + seq![word]);
                    } else {
                        push_line(&mut out, text::owned(line));
                        assert(text::views(out@) == before + seq![line@]);
                    }
                },
                None => {
                    push_line(&mut out, text::owned(line));
                    assert(text::views(out@) == before + seq![line@]);
                },
            }
        }
        i += 1;
    }
    assert(all.take(all.len() as int) == all);
    push_line(&mut out, text::owned(""));
    text::join(&out, "\n")
}

// ---------------------------------------------------------------------------
// What the scripts promise.
// ---------------------------------------------------------------------------

/// One more line of a script stays, behind the others, exactly where it offers no
/// hidden command.
pub proof fn law_which_lines_stay(
    shell: Shell,
    lines: Seq<Seq<char>>,
    line: Seq<char>,
    hidden: Seq<Seq<char>>,
)
    ensures
        unoffered(shell, lines.push(line), hidden) == if exists|i: int|
            0 <= i < hidden.len() && offers_one(shell, line, #[trigger] hidden[i]) {
            unoffered(shell, lines, hidden)
        } else {
            unoffered(shell, lines, hidden).push(line)
        },
        unoffered(shell, Seq::empty(), hidden).len() == 0,
{
    assert(lines.push(line).drop_last() == lines);
}

/// A line offers a command in the form of its shell: zsh and fish name it
/// between a quote and a colon or behind `-a`, elvish and PowerShell behind
/// `cand` or in a result. A script of bash has no such line.
pub proof fn law_how_a_line_offers_a_command(
    a: Seq<char>,
    name: Seq<char>,
    b: Seq<char>,
    line: Seq<char>,
)
    ensures
        offers_one(Shell::Zsh, a + ("'"@ + name + ":"@) + b, name),
        offers_one(Shell::Fish, a + ("-a \""@ + name + "\""@) + b, name),
        offers_one(Shell::PowerShell, a + ("::new('"@ + name + "', '"@ + name + "',"@) + b, name),
        !offers_one(Shell::Bash, line, name),
{
    lemma_between(a, "'"@ + name + ":"@, b);
    lemma_between(a, "-a \""@ + name + "\""@, b);
    lemma_between(a, "::new('"@ + name + "', '"@ + name + "',"@, b);
}

proof fn lemma_between(a: Seq<char>, b: Seq<char>, c: Seq<char>)
    ensures
        text::holds(a + b + c, b),
{
    assert((a + b + c).subrange(a.len() as int, a.len() as int + b.len()) == b);
    assert(text::stands_at(a + b + c, b, a.len() as int));
}

/// With no hidden command, and for a shell that qex does not know, a script is
/// left as it is.
pub proof fn law_a_script_with_nothing_hidden_stays(
    t: &str,
    hidden: &Vec<String>,
    shell: Shell,
    r: String,
)
    requires
        call_ensures(remove_hidden, (t, hidden, shell), r),
        hidden@.len() == 0 || shell is Other,
    ensures
        r@ == t@,
{
    assert(text::views(hidden@).len() == hidden@.len());
}

/// A list of words holds the words of its parts, and a single word is itself.
pub proof fn law_the_words_of_a_list(a: Seq<char>, b: Seq<char>, word: Seq<char>)
    ensures
        is_word(a.push(' ') + b, word) <==> is_word(a, word) || is_word(b, word),
        (forall|j: int| 0 <= j < a.len() ==> #[trigger] a[j] != ' ') ==> (is_word(a, word) <==> a
            == word),
{
    text::law_parts_join(a, b, ' ');
    let pa = text::parts(a, ' ');
    let pb = text::parts(b, ' ');
    let all = pa + pb;
    if all.contains(word) {
        let k = all.index_of(word);
        if k < pa.len() {
            assert(pa[k] == word);
        } else {
            assert(pb[k - pa.len()] == word);
        }
    }
    if pa.contains(word) {
        let k = pa.index_of(word);
        assert(all[k] == word);
    }
    if pb.contains(word) {
        let k = pb.index_of(word);
        assert(all[pa.len() + k] == word);
    }
    if forall|j: int| 0 <= j < a.len() ==> #[trigger] a[j] != ' ' {
        text::lemma_one_part(a, ' ');
        assert(seq![a][0] == a);
        if pa.contains(word) {
            let k = pa.index_of(word);
            assert(k == 0);
        }
    }
}

/// An option that takes a value gives its long name, its other names and its
/// letter, and an option that takes none gives nothing.
pub proof fn law_the_words_of_an_option(arg: Argument, i: int)
    requires
        0 <= i < arg.aliases@.len(),
    ensures
        !arg.takes_values ==> argument_words(arg).len() == 0,
        arg.takes_values ==> argument_words(arg).contains("--"@ + arg.aliases@[i]@),
        arg.takes_values && arg.long is Some ==> argument_words(arg).contains(
            "--"@ + arg.long->0@,
        ),
        arg.takes_values && arg.short is Some ==> argument_words(arg).contains(
            "-"@.push(arg.short->0),
        ),
{
    if arg.takes_values {
        let a = long_words(arg);
        let b = alias_words(arg);
        let all = argument_words(arg);
        assert(all[a.len() + i] == b[i]);
        if arg.long is Some {
            assert(all[0] == a[0]);
        }
        if arg.short is Some {
            assert(all[a.len() + b.len() as int] == short_words(arg)[0]);
        }
    }
}

/// The options that take a value are those of the commands that take a job, each
/// one time and in order.
pub proof fn law_the_options_of_the_commands(
    commands: &Vec<SubCommand>,
    r: Vec<String>,
    i: int,
    k: int,
    word: Seq<char>,
)
    requires
        call_ensures(options_that_take_a_value, (commands,), r),
        0 <= i < commands@.len(),
        0 <= k < commands@[i].arguments@.len(),
    ensures
        takes_job(commands@[i].name@) && argument_words(commands@[i].arguments@[k]).contains(word)
            ==> text::views(r@).contains(word),
        sorted(text::views(r@)),
        (forall|m: int| 0 <= m < commands@.len() ==> !takes_job((#[trigger] commands@[m]).name@))
            ==> r@.len() == 0,
{
    if takes_job(commands@[i].name@) && argument_words(commands@[i].arguments@[k]).contains(word) {
        assert(valued(commands@, word));
    }
    if forall|m: int| 0 <= m < commands@.len() ==> !takes_job((#[trigger] commands@[m]).name@) {
        if r@.len() > 0 {
            let w = text::views(r@)[0];
            assert(text::views(r@).contains(w));
            assert(valued(commands@, w));
        }
    }
}

/// Each line of the file of zsh stays, but for the one that ends a job argument:
/// its action becomes that of the jobs. The function of the jobs follows the
/// first line of the file.
pub proof fn law_what_a_line_of_zsh_becomes(place: Place, line: Seq<char>)
    ensures
        zsh_line(place, line).1.len() > 0,
        !positional(line) || !text::finishes(line, DEFAULT_ACTION@) ==> zsh_line(place, line).1[0]
            == line,
        zsh_line(place, line).1.len() == 2 <==> !place.done && text::trimmed(line)
            == "#compdef qex"@,
        zsh_line(place, line).1[0] != line ==> text::begins(
            zsh_line(place, line).1[0],
            line.take(line.len() - DEFAULT_ACTION@.len()) + ": _qex_jobs "@,
        ),
{
    let out = zsh_line(place, line).1;
    if out[0] != line {
        let want = line.take(line.len() - DEFAULT_ACTION@.len()) + ": _qex_jobs "@;
        assert(out[0].subrange(0, want.len() as int) == want);
    }
}

/// Only the file of zsh changes for its jobs. A script of bash holds the options
/// that take a value, and a shell with no such part gets none.
pub proof fn law_which_scripts_get_the_jobs(
    t: &str,
    shell: Shell,
    r: String,
    valued: &str,
    part: String,
)
    requires
        call_ensures(zsh_jobs, (t, shell), r),
        call_ensures(dynamic_part, (shell, valued), part),
    ensures
        shell != Shell::Zsh ==> r@ == t@,
        shell == Shell::Bash ==> text::holds(part@, valued@),
        shell != Shell::Bash && shell != Shell::Fish ==> part@.len() == 0,
{
    reveal_strlit("");
    if shell == Shell::Bash {
        lemma_between(BASH_START@, valued@, BASH_END@);
    }
}

} // verus!
