//! A small pattern language for the search of a log.
//!
//! A pattern holds alternatives with `|` between them. An alternative holds
//! single characters, `.`, `[abc]`, `[a-z]`, `[^abc]` and `\` before a plain
//! character, each of them followed by any number of `*`, `+` and `?`. The
//! marks `^` and `$` tie a match to the start and to the end of the line.

use crate::text;
use vstd::prelude::*;
use vstd::slice::*;
use vstd::string::*;

verus! {

/// One part of a pattern.
#[derive(Debug)]
pub enum Token {
    Char(char),
    Any,
    /// The characters in one of the ranges, or in none of them.
    Class { ranges: Vec<(char, char)>, negated: bool },
    Star(Box<Token>),
    Plus(Box<Token>),
    Optional(Box<Token>),
}

/// What one part of a pattern means.
pub enum Form {
    Char(char),
    Any,
    Class(Set<char>, bool),
    Star(Box<Form>),
    Plus(Box<Form>),
    Optional(Box<Form>),
}

/// The characters that the ranges cover.
pub open spec fn covered(ranges: Seq<(char, char)>) -> Set<char> {
    Set::new(
        |c: char| exists|i: int| 0 <= i < ranges.len() && #[trigger] ranges[i].0 <= c <= ranges[i].1,
    )
}

impl Token {
    /// What this part of a pattern means.
    pub open spec fn form(self) -> Form
        decreases self,
    {
        match self {
            Token::Char(c) => Form::Char(c),
            Token::Any => Form::Any,
            Token::Class { ranges, negated } => Form::Class(covered(ranges@), negated),
            Token::Star(t) => Form::Star(Box::new(t.form())),
            Token::Plus(t) => Form::Plus(Box::new(t.form())),
            Token::Optional(t) => Form::Optional(Box::new(t.form())),
        }
    }
}

/// The meaning of each part of a list.
pub open spec fn forms(tokens: Seq<Token>) -> Seq<Form> {
    tokens.map_values(|t: Token| t.form())
}

/// True when one character answers to the form. A repeat answers to no single
/// character.
pub open spec fn fits(f: Form, c: char) -> bool {
    match f {
        Form::Char(want) => c == want,
        Form::Any => true,
        Form::Class(set, negated) => set.contains(c) != negated,
        _ => false,
    }
}

/// The form that a repeat repeats; any other form stands for itself.
pub open spec fn unit(f: Form) -> Form {
    match f {
        Form::Star(t) => *t,
        Form::Plus(t) => *t,
        Form::Optional(t) => *t,
        _ => f,
    }
}

/// The smallest number of characters that the form takes.
pub open spec fn least(f: Form) -> nat {
    match f {
        Form::Star(_) => 0,
        Form::Optional(_) => 0,
        _ => 1,
    }
}

/// The largest number of characters that the form takes, where there is one.
pub open spec fn most(f: Form) -> Option<nat> {
    match f {
        Form::Star(_) => None,
        Form::Plus(_) => None,
        _ => Some(1),
    }
}

/// How many characters from position `p` answer to the unit `u`, one after
/// the other.
pub open spec fn run(u: Form, text: Seq<char>, p: nat) -> nat
    decreases text.len() - p,
{
    if p < text.len() && fits(u, text[p as int]) {
        1 + run(u, text, p + 1)
    } else {
        0
    }
}

/// The largest number of characters that the form can take at position `p`.
pub open spec fn reach(f: Form, text: Seq<char>, p: nat) -> nat {
    let n = run(unit(f), text, p);
    match most(f) {
        Some(m) => if n < m {
            n
        } else {
            m
        },
        None => n,
    }
}

/// Where the list of forms ends when it begins at position `p`: each form
/// takes as many characters as it can, and gives characters back only when
/// the forms after it find no place.
pub open spec fn first_end(list: Seq<Form>, text: Seq<char>, p: nat) -> Option<nat>
    decreases list.len(), 1nat, 0nat,
{
    if list.len() == 0 {
        Some(p)
    } else {
        let n = reach(list[0], text, p);
        if n < least(list[0]) {
            None
        } else {
            longest(list, text, p, n)
        }
    }
}

/// The end of the forms after the first one, when the first one takes `n`
/// characters at most.
pub open spec fn longest(list: Seq<Form>, text: Seq<char>, p: nat, n: nat) -> Option<nat>
    decreases list.len(), 0nat, n,
{
    if list.len() == 0 || n < least(list[0]) {
        None
    } else {
        match first_end(list.skip(1), text, p + n) {
            Some(end) => Some(end),
            None => if n == 0 {
                None
            } else {
                longest(list, text, p, (n - 1) as nat)
            },
        }
    }
}

/// True when the form may take exactly the `k` characters from position `p`.
pub open spec fn takes(f: Form, text: Seq<char>, p: nat, k: nat) -> bool {
    &&& least(f) <= k
    &&& most(f) matches Some(m) ==> k <= m
    &&& p + k <= text.len()
    &&& forall|i: int| p <= i < p + k ==> fits(unit(f), #[trigger] text[i])
}

/// True when the list of forms can stand on the text from `p` to `q`: the
/// text between them falls into parts, one for each form, and each form may
/// take its part.
pub open spec fn spans(list: Seq<Form>, text: Seq<char>, p: nat, q: nat) -> bool
    decreases list.len(),
{
    if list.len() == 0 {
        p == q
    } else {
        exists|k: nat| #[trigger]
            takes(list[0], text, p, k) && spans(list.skip(1), text, p + k, q)
    }
}

proof fn lemma_run(u: Form, text: Seq<char>, p: nat)
    ensures
        p <= text.len() ==> p + run(u, text, p) <= text.len(),
        p >= text.len() ==> run(u, text, p) == 0,
        forall|i: int| p <= i < p + run(u, text, p) ==> fits(u, #[trigger] text[i]),
        p + run(u, text, p) < text.len() ==> !fits(u, text[(p + run(u, text, p)) as int]),
    decreases text.len() - p,
{
    if p < text.len() && fits(u, text[p as int]) {
        lemma_run(u, text, p + 1);
    }
}

proof fn lemma_takes_within_reach(f: Form, text: Seq<char>, p: nat, k: nat)
    requires
        takes(f, text, p, k),
    ensures
        k <= reach(f, text, p),
{
    lemma_run(unit(f), text, p);
    let n = run(unit(f), text, p);
    if n < k {
        assert(fits(unit(f), text[(p + n) as int]));
    }
}

proof fn lemma_reach_takes(f: Form, text: Seq<char>, p: nat, k: nat)
    requires
        least(f) <= k <= reach(f, text, p),
        p <= text.len(),
    ensures
        takes(f, text, p, k),
{
    lemma_run(unit(f), text, p);
}

/// The search is right and complete: it finds an end exactly when some end
/// exists, and the end that it finds is one.
pub proof fn law_first_end(list: Seq<Form>, text: Seq<char>, p: nat)
    requires
        p <= text.len(),
    ensures
        match first_end(list, text, p) {
            Some(q) => spans(list, text, p, q) && p <= q <= text.len(),
            None => forall|q: nat| !spans(list, text, p, q),
        },
    decreases list.len(), 1nat, 0nat,
{
    if list.len() > 0 {
        let n = reach(list[0], text, p);
        if n < least(list[0]) {
            assert forall|q: nat| !spans(list, text, p, q) by {
                if spans(list, text, p, q) {
                    let k = choose|k: nat| #[trigger]
                        takes(list[0], text, p, k) && spans(list.skip(1), text, p + k, q);
                    lemma_takes_within_reach(list[0], text, p, k);
                }
            }
        } else {
            lemma_longest(list, text, p, n);
            if longest(list, text, p, n) is None {
                assert forall|q: nat| !spans(list, text, p, q) by {
                    if spans(list, text, p, q) {
                        let k = choose|k: nat| #[trigger]
                            takes(list[0], text, p, k) && spans(list.skip(1), text, p + k, q);
                        lemma_takes_within_reach(list[0], text, p, k);
                        assert(!spans(list.skip(1), text, p + k, q));
                    }
                }
            }
        }
    }
}

proof fn lemma_longest(list: Seq<Form>, text: Seq<char>, p: nat, n: nat)
    requires
        p <= text.len(),
        list.len() > 0,
        n <= reach(list[0], text, p),
    ensures
        match longest(list, text, p, n) {
            Some(q) => spans(list, text, p, q) && p <= q <= text.len(),
            None => forall|k: nat, q: nat|
                least(list[0]) <= k <= n ==> !(#[trigger] spans(list.skip(1), text, p + k, q)),
        },
    decreases list.len(), 0nat, n,
{
    if n >= least(list[0]) {
        lemma_reach_takes(list[0], text, p, n);
        law_first_end(list.skip(1), text, p + n);
        match first_end(list.skip(1), text, p + n) {
            Some(q) => {
                assert(takes(list[0], text, p, n) && spans(list.skip(1), text, p + n, q));
            },
            None => {
                if n > 0 {
                    lemma_longest(list, text, p, (n - 1) as nat);
                }
                if longest(list, text, p, n) is None {
                    assert forall|k: nat, q: nat| least(list[0]) <= k <= n implies !(#[trigger] spans(
                        list.skip(1),
                        text,
                        p + k,
                        q,
                    )) by {
                        if k < n {
                            assert(n > 0);
                        }
                    }
                }
            },
        }
    }
}

/// A list that can stand from an earlier place to a later end than another
/// stand of it can also stand from the later place to the later end.
proof fn lemma_between(list: Seq<Form>, text: Seq<char>, p: nat, q: nat, p2: nat, q2: nat)
    requires
        p <= p2,
        q2 <= q,
        spans(list, text, p, q),
        spans(list, text, p2, q2),
    ensures
        spans(list, text, p2, q),
    decreases list.len(),
{
    if list.len() > 0 {
        let f = list[0];
        let rest = list.skip(1);
        let k = choose|k: nat| #[trigger] takes(f, text, p, k) && spans(rest, text, p + k, q);
        let k2 = choose|k: nat| #[trigger] takes(f, text, p2, k) && spans(rest, text, p2 + k, q2);
        if p + k <= p2 + k2 {
            lemma_between(rest, text, p + k, q, p2 + k2, q2);
            assert(takes(f, text, p2, k2) && spans(rest, text, p2 + k2, q));
        } else {
            let n = (p + k - p2) as nat;
            assert(takes(f, text, p2, n));
            assert(p2 + n == p + k);
            assert(takes(f, text, p2, n) && spans(rest, text, p2 + n, q));
        }
    }
}

/// The end that the search finds is the last one: no stand of the list from
/// this place ends after it.
pub proof fn law_the_end_is_the_last_one(list: Seq<Form>, text: Seq<char>, p: nat, q: nat)
    requires
        p <= text.len(),
        spans(list, text, p, q),
    ensures
        first_end(list, text, p) matches Some(e) && q <= e,
    decreases list.len(), 1nat, 0nat,
{
    law_first_end(list, text, p);
    if list.len() > 0 {
        let k = choose|k: nat| #[trigger]
            takes(list[0], text, p, k) && spans(list.skip(1), text, p + k, q);
        lemma_takes_within_reach(list[0], text, p, k);
        lemma_longest_is_last(list, text, p, reach(list[0], text, p), k, q);
    }
}

proof fn lemma_longest_is_last(
    list: Seq<Form>,
    text: Seq<char>,
    p: nat,
    n: nat,
    k: nat,
    q: nat,
)
    requires
        p <= text.len(),
        list.len() > 0,
        least(list[0]) <= k <= n <= reach(list[0], text, p),
        spans(list.skip(1), text, p + k, q),
    ensures
        longest(list, text, p, n) matches Some(e) && q <= e,
    decreases list.len(), 0nat, n,
{
    let rest = list.skip(1);
    lemma_reach_takes(list[0], text, p, n);
    law_first_end(rest, text, p + n);
    match first_end(rest, text, p + n) {
        Some(e) => {
            if e < q {
                lemma_between(rest, text, p + k, q, p + n, e);
                law_the_end_is_the_last_one(rest, text, p + n, q);
            }
        },
        None => {
            assert(k < n);
            lemma_longest_is_last(list, text, p, (n - 1) as nat, k, q);
        },
    }
}

/// Tests one character against one token, and gives the position after it.
pub fn match_one(token: &Token, chars: &[char], position: usize) -> (r: Option<usize>)
    ensures
        r == (if position < chars@.len() && fits(token.form(), chars@[position as int]) {
            Some((position + 1) as usize)
        } else {
            None::<usize>
        }),
{
    if position >= chars.len() {
        return None;
    }
    let c: char = chars[position];
    let ok = match token {
        Token::Char(want) => c == *want,
        Token::Any => true,
        Token::Class { ranges, negated } => in_ranges(ranges, c) != *negated,
        // A repeat inside a repeat is not necessary here.
        _ => {
            return None;
        },
    };
    if ok {
        Some(position + 1)
    } else {
        None
    }
}

/// True when one of the ranges holds the character.
fn in_ranges(ranges: &Vec<(char, char)>, c: char) -> (r: bool)
    ensures
        r == covered(ranges@).contains(c),
{
    let mut i: usize = 0;
    while i < ranges.len()
        invariant
            i <= ranges@.len(),
            forall|j: int| 0 <= j < i ==> !(#[trigger] ranges@[j].0 <= c <= ranges@[j].1),
        decreases ranges@.len() - i,
    {
        if ranges[i].0 <= c && c <= ranges[i].1 {
            return true;
        }
        i += 1;
    }
    false
}

/// The number of characters from `position` that answer to `inner`.
fn count_run(inner: &Token, chars: &[char], position: usize) -> (r: usize)
    ensures
        r == run(inner.form(), chars@, position as nat),
        position <= chars@.len() ==> position + r <= chars@.len(),
        position >= chars@.len() ==> r == 0,
{
    let mut n: usize = 0;
    proof {
        lemma_run(inner.form(), chars@, position as nat);
    }
    if position >= chars.len() {
        return 0;
    }
    while match_one(inner, chars, position + n).is_some()
        invariant
            position + n <= chars@.len() <= usize::MAX,
            run(inner.form(), chars@, position as nat) == n + run(
                inner.form(),
                chars@,
                (position + n) as nat,
            ),
        decreases chars@.len() - n,
    {
        n += 1;
    }
    n
}

/// Tries the tokens after a repeat that takes from `low` to `high` characters,
/// the longest first.
fn try_rest(tokens: &[Token], chars: &[char], position: usize, low: usize, high: usize) -> (r: Option<
    usize,
>)
    requires
        tokens@.len() > 0,
        low == least(tokens@[0].form()),
        low <= high,
        position + high <= usize::MAX,
    ensures
        match r {
            Some(q) => longest(forms(tokens@), chars@, position as nat, high as nat) == Some(
                q as nat,
            ),
            None => longest(forms(tokens@), chars@, position as nat, high as nat) is None,
        },
    decreases tokens@.len(), 0int,
{
    let rest = slice_subrange(tokens, 1, tokens.len());
    assert(forms(rest@) == forms(tokens@).skip(1));
    assert(forms(tokens@)[0] == tokens@[0].form());
    let mut n: usize = high;
    loop
        invariant
            rest@.len() == tokens@.len() - 1,
            forms(rest@) == forms(tokens@).skip(1),
            forms(tokens@).len() > 0,
            low == least(forms(tokens@)[0]),
            low <= n <= high,
            position + high <= usize::MAX,
            longest(forms(tokens@), chars@, position as nat, high as nat) == longest(
                forms(tokens@),
                chars@,
                position as nat,
                n as nat,
            ),
        decreases n,
    {
        if let Some(done) = match_here(rest, chars, position + n) {
            return Some(done);
        }
        if n == low {
            assert(n > 0 ==> longest(
                forms(tokens@),
                chars@,
                position as nat,
                (n - 1) as nat,
            ) is None);
            return None;
        }
        n -= 1;
    }
}

/// Tests the tokens against the text from one position, and gives the
/// position where they end.
pub fn match_here(tokens: &[Token], chars: &[char], position: usize) -> (r: Option<usize>)
    ensures
        match r {
            Some(q) => first_end(forms(tokens@), chars@, position as nat) == Some(q as nat),
            None => first_end(forms(tokens@), chars@, position as nat) is None,
        },
    decreases tokens@.len(), 1int,
{
    if tokens.len() == 0 {
        return Some(position);
    }
    let first: &Token = &tokens[0];
    let total: usize = chars.len();
    assert(total == chars@.len());
    assert(forms(tokens@)[0] == first.form());
    proof {
        lemma_run(unit(first.form()), chars@, position as nat);
    }
    match first {
        Token::Star(inner) => {
            let n: usize = count_run(inner, chars, position);
            try_rest(tokens, chars, position, 0, n)
        },
        Token::Plus(inner) => {
            let n: usize = count_run(inner, chars, position);
            if n == 0 {
                None
            } else {
                try_rest(tokens, chars, position, 1, n)
            }
        },
        Token::Optional(inner) => {
            let n: usize = if match_one(inner, chars, position).is_some() {
                1
            } else {
                0
            };
            assert(n == reach(first.form(), chars@, position as nat));
            try_rest(tokens, chars, position, 0, n)
        },
        simple => {
            match match_one(simple, chars, position) {
                Some(_) => {
                    assert(1 == reach(first.form(), chars@, position as nat));
                    try_rest(tokens, chars, position, 1, 1)
                },
                None => None,
            }
        },
    }
}

/// The characters of the set between `[` and `]` from position `k`. Two
/// characters with `-` between them give every character from the first to
/// the second.
pub open spec fn class_set(set: Seq<char>, k: nat) -> Set<char>
    decreases set.len() - k,
{
    if k >= set.len() {
        Set::empty()
    } else if k + 2 < set.len() && set[k as int + 1] == '-' {
        Set::new(|c: char| set[k as int] <= c <= set[k as int + 2]).union(class_set(set, k + 3))
    } else {
        class_set(set, k + 1).insert(set[k as int])
    }
}

/// True for the marks that repeat the part before them.
pub open spec fn repeats(c: char) -> bool {
    c == '*' || c == '+' || c == '?'
}

/// The repeat of `f` that the mark `c` asks for.
pub open spec fn repeated(c: char, f: Form) -> Form {
    if c == '*' {
        Form::Star(Box::new(f))
    } else if c == '+' {
        Form::Plus(Box::new(f))
    } else {
        Form::Optional(Box::new(f))
    }
}

/// The part of the pattern at position `i`, where no repeat mark stands, and
/// the position after it; or the message about the fault there.
pub open spec fn part_at(p: Seq<char>, i: nat) -> Result<(Form, nat), Seq<char>> {
    let c = p[i as int];
    if c == '.' {
        Ok((Form::Any, i + 1))
    } else if c == '\\' {
        if i + 1 >= p.len() {
            Err("the pattern ends with a backslash"@)
        } else {
            Ok((Form::Char(p[i as int + 1]), i + 2))
        }
    } else if c == '[' {
        let close = text::next_at(p, ']', i);
        if close >= p.len() {
            Err("the group that starts at `[` has no `]` in `"@ + p + "`"@)
        } else {
            let body = p.subrange(i as int + 1, close as int);
            if body.len() > 0 && body[0] == '^' {
                Ok((Form::Class(class_set(body.skip(1), 0), true), close + 1))
            } else {
                Ok((Form::Class(class_set(body, 0), false), close + 1))
            }
        }
    } else if c == '(' || c == ')' {
        Err(
            "this search does not read a group `(` or `)` in `"@ + p
                + "`. Use `--fixed` for plain text, or use `|` for alternatives."@,
        )
    } else {
        Ok((Form::Char(c), i + 1))
    }
}

/// The forms of the pattern `p`, when the text before position `i` gave the
/// forms `done`; or the message about the first fault.
pub open spec fn read_from(p: Seq<char>, i: nat, done: Seq<Form>) -> Result<Seq<Form>, Seq<char>>
    decreases p.len() - i,
    via read_from_ends
{
    if i >= p.len() {
        Ok(done)
    } else if repeats(p[i as int]) {
        if done.len() == 0 {
            Err("`"@ + seq![p[i as int]] + "` has nothing before it in `"@ + p + "`"@)
        } else {
            read_from(p, i + 1, done.drop_last().push(repeated(p[i as int], done.last())))
        }
    } else {
        match part_at(p, i) {
            Ok((f, next)) => read_from(p, next, done.push(f)),
            Err(e) => Err(e),
        }
    }
}

#[via_fn]
proof fn read_from_ends(p: Seq<char>, i: nat, done: Seq<Form>) {
    if i < p.len() {
        text::lemma_next_at(p, ']', i);
    }
}

/// The forms of one alternative of a pattern, or the message about its fault.
pub open spec fn read(p: Seq<char>) -> Result<Seq<Form>, Seq<char>> {
    read_from(p, 0, Seq::empty())
}

/// Reads the characters between `[` and `]`, from `from` to `to`.
fn parse_class(chars: &Vec<char>, from: usize, to: usize) -> (r: Vec<(char, char)>)
    requires
        from <= to <= chars@.len(),
    ensures
        covered(r@) == class_set(chars@.subrange(from as int, to as int), 0),
{
    let ghost set = chars@.subrange(from as int, to as int);
    let mut out: Vec<(char, char)> = Vec::new();
    let mut k: usize = from;
    assert(covered(out@) == Set::<char>::empty());
    while k < to
        invariant
            from <= k <= to <= chars@.len(),
            set == chars@.subrange(from as int, to as int),
            covered(out@).union(class_set(set, (k - from) as nat)) == class_set(set, 0),
        decreases to - k,
    {
        let ghost before = out@;
        let pair: (char, char) = if to - k > 2 && chars[k + 1] == '-' {
            (chars[k], chars[k + 2])
        } else {
            (chars[k], chars[k])
        };
        out.push(pair);
        proof {
            assert forall|c: char| #[trigger]
                covered(out@).contains(c) == (covered(before).contains(c) || pair.0 <= c <= pair.1) by {
                if covered(before).contains(c) {
                    let i = choose|i: int|
                        0 <= i < before.len() && #[trigger] before[i].0 <= c <= before[i].1;
                    assert(out@[i].0 <= c <= out@[i].1);
                }
                if pair.0 <= c <= pair.1 {
                    assert(out@[before.len() as int].0 <= c <= out@[before.len() as int].1);
                }
                if covered(out@).contains(c) && !(pair.0 <= c <= pair.1) {
                    let i = choose|i: int|
                        0 <= i < out@.len() && #[trigger] out@[i].0 <= c <= out@[i].1;
                    assert(before[i].0 <= c <= before[i].1);
                }
            }
        }
        if to - k > 2 && chars[k + 1] == '-' {
            assert(pair == (set[k - from], set[k - from + 2]));
            assert(class_set(set, (k - from) as nat) == Set::new(
                |c: char| pair.0 <= c <= pair.1,
            ).union(class_set(set, (k + 3 - from) as nat)));
            assert(covered(out@).union(class_set(set, (k + 3 - from) as nat)) == covered(
                before,
            ).union(class_set(set, (k - from) as nat)));
            k += 3;
        } else {
            assert forall|c: char| #[trigger]
                covered(out@).contains(c) == (covered(before).contains(c) || c == set[k - from]) by {
                assert(pair.0 <= c <= pair.1 <==> c == set[k - from]);
            }
            assert(covered(out@).union(class_set(set, (k + 1 - from) as nat)) == covered(
                before,
            ).union(class_set(set, (k - from) as nat)));
            k += 1;
        }
    }
    assert(covered(out@) == class_set(set, 0));
    out
}

/// The token of one plain character.
fn plain(c: char) -> (r: Token)
    ensures
        r.form() == Form::Char(c),
{
    Token::Char(c)
}

/// Reads the part of the pattern at position `i`, where no repeat mark stands.
fn parse_part(chars: &Vec<char>, i: usize, pattern: &str) -> (r: Result<(Token, usize), String>)
    requires
        chars@ == pattern@,
        i < chars.len(),
    ensures
        match r {
            Ok((token, next)) => part_at(pattern@, i as nat) == Ok::<(Form, nat), Seq<char>>(
                (token.form(), next as nat),
            ) && i < next <= chars@.len(),
            Err(e) => part_at(pattern@, i as nat) == Err::<(Form, nat), Seq<char>>(e@),
        },
{
    let c: char = chars[i];
    if c == '.' {
        Ok((Token::Any, i + 1))
    } else if c == '\\' {
        if chars.len() - i <= 1 {
            Err(text::owned("the pattern ends with a backslash"))
        } else {
            Ok((plain(chars[i + 1]), i + 2))
        }
    } else if c == '[' {
        let close: usize = text::find(chars, ']', i);
        if close == chars.len() {
            let mut e = text::owned("the group that starts at `[` has no `]` in `");
            e.append(pattern);
            e.append("`");
            return Err(e);
        }
        let ghost body = chars@.subrange(i + 1, close as int);
        let negated = i + 1 < close && chars[i + 1] == '^';
        let start: usize = if negated {
            i + 2
        } else {
            i + 1
        };
        let ranges = parse_class(chars, start, close);
        assert(negated == (body.len() > 0 && body[0] == '^'));
        assert(negated ==> body.skip(1) == chars@.subrange(i + 2, close as int));
        let token = Token::Class { ranges, negated };
        assert(token.form() == Form::Class(covered(ranges@), negated));
        Ok((token, close + 1))
    } else if c == '(' || c == ')' {
        let mut e = text::owned("this search does not read a group `(` or `)` in `");
        e.append(pattern);
        e.append("`. Use `--fixed` for plain text, or use `|` for alternatives.");
        Err(e)
    } else {
        Ok((plain(c), i + 1))
    }
}

/// Reads one alternative of a pattern.
pub fn parse_tokens(pattern: &str) -> (r: Result<Vec<Token>, String>)
    ensures
        match r {
            Ok(tokens) => read(pattern@) == Ok::<Seq<Form>, Seq<char>>(forms(tokens@)),
            Err(e) => read(pattern@) == Err::<Seq<Form>, Seq<char>>(e@),
        },
{
    let chars = text::chars(pattern);
    let mut tokens: Vec<Token> = Vec::new();
    let mut i: usize = 0;
    assert(forms(tokens@) == Seq::<Form>::empty());
    while i < chars.len()
        invariant
            chars@ == pattern@,
            i <= chars@.len(),
            read(pattern@) == read_from(pattern@, i as nat, forms(tokens@)),
        decreases chars@.len() - i,
    {
        let ghost before = tokens@;
        let c: char = chars[i];
        if c == '*' || c == '+' || c == '?' {
            match tokens.pop() {
                None => {
                    let mut e = text::owned("`");
                    e.push(c);
                    assert(e@ == "`"@ + seq![c]);
                    e.append("` has nothing before it in `");
                    e.append(pattern);
                    e.append("`");
                    return Err(e);
                },
                Some(previous) => {
                    assert(forms(before).last() == previous.form());
                    let wrapped = if c == '*' {
                        Token::Star(Box::new(previous))
                    } else if c == '+' {
                        Token::Plus(Box::new(previous))
                    } else {
                        Token::Optional(Box::new(previous))
                    };
                    tokens.push(wrapped);
                    assert(forms(tokens@) == forms(before).drop_last().push(
                        repeated(c, forms(before).last()),
                    ));
                    i += 1;
                },
            }
        } else {
            match parse_part(&chars, i, pattern) {
                Ok((token, next)) => {
                    tokens.push(token);
                    assert(forms(tokens@) == forms(before).push(token.form()));
                    i = next;
                },
                Err(e) => {
                    return Err(e);
                },
            }
        }
    }
    Ok(tokens)
}

/// Tests one line against a pattern.
///
/// This type reads a small language: `.`, `*`, `+`, `?`, `[abc]`, `^`, `$` and
/// `|`. A pattern that uses more than this gives a clear error, and a fixed
/// pattern accepts any text.
#[derive(Debug)]
pub struct Matcher {
    pub alternatives: Vec<Vec<Token>>,
    pub anchored_start: bool,
    pub anchored_end: bool,
    pub fixed: Option<String>,
}

/// What a whole pattern means.
pub struct Meaning {
    pub alternatives: Seq<Seq<Form>>,
    pub anchored_start: bool,
    pub anchored_end: bool,
    pub fixed: Option<Seq<char>>,
}

impl View for Matcher {
    type V = Meaning;

    open spec fn view(&self) -> Meaning {
        Meaning {
            alternatives: self.alternatives@.map_values(|t: Vec<Token>| forms(t@)),
            anchored_start: self.anchored_start,
            anchored_end: self.anchored_end,
            fixed: text::opt_view(self.fixed),
        }
    }
}

/// True when the alternative begins with `^`.
pub open spec fn ties_start(part: Seq<char>) -> bool {
    part.len() > 0 && part[0] == '^'
}

/// The alternative with no first `^`.
pub open spec fn after_start(part: Seq<char>) -> Seq<char> {
    if ties_start(part) {
        part.skip(1)
    } else {
        part
    }
}

/// True when the alternative ends with `$`, not counting a first `^`.
pub open spec fn ties_end(part: Seq<char>) -> bool {
    after_start(part).len() > 0 && after_start(part).last() == '$'
}

/// The alternative with no first `^` and no last `$`.
pub open spec fn body(part: Seq<char>) -> Seq<char> {
    if ties_end(part) {
        after_start(part).drop_last()
    } else {
        after_start(part)
    }
}

/// The forms of the first `n` alternatives, or the message about the first
/// fault in them.
pub open spec fn read_all(list: Seq<Seq<char>>, n: nat) -> Result<Seq<Seq<Form>>, Seq<char>>
    decreases n,
{
    if n == 0 {
        Ok(Seq::empty())
    } else {
        match read_all(list, (n - 1) as nat) {
            Err(e) => Err(e),
            Ok(done) => match read(body(list[n - 1])) {
                Ok(f) => Ok(done.push(f)),
                Err(e) => Err(e),
            },
        }
    }
}

/// What the text of a pattern means. A fixed pattern means its own text. In
/// any other pattern, a `^` or a `$` in one alternative ties every one.
pub open spec fn meaning(pattern: Seq<char>, fixed: bool) -> Result<Meaning, Seq<char>> {
    let list = text::parts(pattern, '|');
    if fixed {
        Ok(
            Meaning {
                alternatives: Seq::empty(),
                anchored_start: false,
                anchored_end: false,
                fixed: Some(pattern),
            },
        )
    } else {
        match read_all(list, list.len()) {
            Err(e) => Err(e),
            Ok(alternatives) => Ok(
                Meaning {
                    alternatives,
                    anchored_start: exists|i: int|
                        0 <= i < list.len() && ties_start(#[trigger] list[i]),
                    anchored_end: exists|i: int|
                        0 <= i < list.len() && ties_end(#[trigger] list[i]),
                    fixed: None,
                },
            ),
        }
    }
}

/// True when the forms begin at position `s` of the line, and end where the
/// pattern wants them to end.
pub open spec fn stands(list: Seq<Form>, line: Seq<char>, s: nat, to_the_end: bool) -> bool {
    match first_end(list, line, s) {
        Some(e) => to_the_end ==> e == line.len(),
        None => false,
    }
}

/// True when the line answers to the pattern.
pub open spec fn answers(m: Meaning, line: Seq<char>) -> bool {
    match m.fixed {
        Some(text) => text::holds(line, text),
        None => exists|a: int, s: nat|
            0 <= a < m.alternatives.len() && s <= line.len() && (m.anchored_start ==> s == 0)
                && #[trigger] stands(m.alternatives[a], line, s, m.anchored_end),
    }
}

/// A pattern matches a line exactly when one of its alternatives can stand
/// somewhere on the line: from its start where the pattern has a `^`, and up to
/// its end where the pattern has a `$`.
pub proof fn law_match_is_a_place(m: Meaning, line: Seq<char>)
    requires
        m.fixed is None,
    ensures
        answers(m, line) <==> exists|a: int, s: nat, q: nat|
            0 <= a < m.alternatives.len() && s <= line.len() && (m.anchored_start ==> s == 0) && (
            m.anchored_end ==> q == line.len()) && #[trigger] spans(m.alternatives[a], line, s, q),
{
    if answers(m, line) {
        let (a, s) = choose|a: int, s: nat|
            0 <= a < m.alternatives.len() && s <= line.len() && (m.anchored_start ==> s == 0)
                && #[trigger] stands(m.alternatives[a], line, s, m.anchored_end);
        law_first_end(m.alternatives[a], line, s);
        let q = first_end(m.alternatives[a], line, s)->0;
        assert(spans(m.alternatives[a], line, s, q));
    }
    if exists|a: int, s: nat, q: nat|
        0 <= a < m.alternatives.len() && s <= line.len() && (m.anchored_start ==> s == 0) && (
        m.anchored_end ==> q == line.len()) && #[trigger] spans(m.alternatives[a], line, s, q) {
        let (a, s, q) = choose|a: int, s: nat, q: nat|
            0 <= a < m.alternatives.len() && s <= line.len() && (m.anchored_start ==> s == 0) && (
            m.anchored_end ==> q == line.len()) && #[trigger] spans(
                m.alternatives[a],
                line,
                s,
                q,
            );
        law_first_end(m.alternatives[a], line, s);
        law_the_end_is_the_last_one(m.alternatives[a], line, s, q);
        assert(stands(m.alternatives[a], line, s, m.anchored_end));
    }
}

impl Matcher {
    /// Reads a pattern.
    pub fn new(pattern: &str, fixed: bool) -> (r: Result<Self, String>)
        ensures
            match r {
                Ok(m) => meaning(pattern@, fixed) == Ok::<Meaning, Seq<char>>(m@),
                Err(e) => meaning(pattern@, fixed) == Err::<Meaning, Seq<char>>(e@),
            },
    {
        if fixed {
            let m = Matcher {
                alternatives: Vec::new(),
                anchored_start: false,
                anchored_end: false,
                fixed: Some(text::owned(pattern)),
            };
            assert(m@.alternatives == Seq::<Seq<Form>>::empty());
            return Ok(m);
        }
        let list = text::split(pattern, '|');
        let ghost parts = text::parts(pattern@, '|');
        let mut alternatives: Vec<Vec<Token>> = Vec::new();
        let mut anchored_start = false;
        let mut anchored_end = false;
        let mut n: usize = 0;
        let ghost all = |v: Seq<Vec<Token>>| v.map_values(|t: Vec<Token>| forms(t@));
        assert(all(alternatives@) == Seq::<Seq<Form>>::empty());
        while n < list.len()
            invariant
                !fixed,
                parts == text::parts(pattern@, '|'),
                text::views(list@) == parts,
                n <= list@.len(),
                all == (|v: Seq<Vec<Token>>| v.map_values(|t: Vec<Token>| forms(t@))),
                read_all(parts, n as nat) == Ok::<Seq<Seq<Form>>, Seq<char>>(all(alternatives@)),
                anchored_start == (exists|i: int| 0 <= i < n && ties_start(#[trigger] parts[i])),
                anchored_end == (exists|i: int| 0 <= i < n && ties_end(#[trigger] parts[i])),
            decreases list@.len() - n,
        {
            let part = text::chars(list[n].as_str());
            assert(parts[n as int] == part@);
            let mut from: usize = 0;
            let mut to: usize = part.len();
            if part.len() > 0 && part[0] == '^' {
                anchored_start = true;
                from = 1;
            }
            assert(after_start(part@) == part@.subrange(from as int, part@.len() as int));
            if to > from && part[to - 1] == '$' {
                anchored_end = true;
                to = to - 1;
            }
            assert(body(part@) == part@.subrange(from as int, to as int));
            let text_of_it = text::piece(&part, from, to);
            match parse_tokens(text_of_it.as_str()) {
                Ok(tokens) => {
                    let ghost before = alternatives@;
                    alternatives.push(tokens);
                    assert(all(alternatives@) == all(before).push(forms(tokens@)));
                },
                Err(e) => {
                    proof {
                        lemma_first_fault(parts, n as nat + 1, parts.len());
                    }
                    return Err(e);
                },
            }
            n += 1;
        }
        Ok(Matcher { alternatives, anchored_start, anchored_end, fixed: None })
    }

    /// Tests one line.
    pub fn matches(&self, line: &str) -> (r: bool)
        ensures
            r == answers(self@, line@),
    {
        let chars = text::chars(line);
        if let Some(text) = &self.fixed {
            return text::has(&chars, &text::chars(text.as_str()));
        }
        let last: usize = if self.anchored_start {
            0
        } else {
            chars.len()
        };
        let mut a: usize = 0;
        while a < self.alternatives.len()
            invariant
                self.fixed is None,
                chars@ == line@,
                last == (if self.anchored_start {
                    0
                } else {
                    line@.len()
                }),
                a <= self.alternatives@.len(),
                forall|b: int, s: nat|
                    0 <= b < a && s <= last ==> !(#[trigger] stands(
                        self@.alternatives[b],
                        line@,
                        s,
                        self.anchored_end,
                    )),
            decreases self.alternatives@.len() - a,
        {
            let tokens = self.alternatives[a].as_slice();
            assert(self@.alternatives[a as int] == forms(tokens@));
            let mut start: usize = 0;
            loop
                invariant
                    self.fixed is None,
                    chars@ == line@,
                    a < self.alternatives@.len(),
                    self@.alternatives[a as int] == forms(tokens@),
                    last == (if self.anchored_start {
                        0
                    } else {
                        line@.len()
                    }),
                    start <= last,
                    forall|s: nat|
                        s < start ==> !(#[trigger] stands(
                            self@.alternatives[a as int],
                            line@,
                            s,
                            self.anchored_end,
                        )),
                ensures
                    start == last,
                    forall|s: nat|
                        s <= last ==> !(#[trigger] stands(
                            self@.alternatives[a as int],
                            line@,
                            s,
                            self.anchored_end,
                        )),
                decreases last - start,
            {
                if let Some(end) = match_here(tokens, chars.as_slice(), start) {
                    if !self.anchored_end || end == chars.len() {
                        assert(stands(
                            self@.alternatives[a as int],
                            line@,
                            start as nat,
                            self@.anchored_end,
                        ));
                        return true;
                    }
                }
                if start == last {
                    break ;
                }
                start += 1;
            }
            a += 1;
        }
        false
    }
}

/// A fault in the first `n` alternatives is the fault of the whole pattern.
proof fn lemma_first_fault(list: Seq<Seq<char>>, n: nat, m: nat)
    requires
        n <= m,
        read_all(list, n) is Err,
    ensures
        read_all(list, m) == read_all(list, n),
    decreases m,
{
    if n < m {
        lemma_first_fault(list, n, (m - 1) as nat);
    }
}

// ---------------------------------------------------------------------------
// What the patterns promise.
// ---------------------------------------------------------------------------

proof fn lemma_class_rest(set: Seq<char>, k: nat)
    requires
        k <= set.len(),
    ensures
        class_set(set, k) == class_set(set.skip(k as int), 0),
    decreases set.len() - k,
{
    lemma_class_shift(set, k, 0);
}

proof fn lemma_class_shift(set: Seq<char>, k: nat, n: nat)
    requires
        k <= set.len(),
    ensures
        class_set(set, k + n) == class_set(set.skip(k as int), n),
    decreases set.len() - k - n,
{
    let rest = set.skip(k as int);
    if n < rest.len() {
        assert(rest[n as int] == set[k as int + n]);
        if n + 1 < rest.len() {
            assert(rest[n as int + 1] == set[k as int + n + 1]);
        }
        if n + 2 < rest.len() {
            assert(rest[n as int + 2] == set[k as int + n + 2]);
        }
        if n + 2 < rest.len() && rest[n as int + 1] == '-' {
            lemma_class_shift(set, k, n + 3);
            assert(Set::new(|c: char| set[k as int + n] <= c <= set[k as int + n + 2]) == Set::new(
                |c: char| rest[n as int] <= c <= rest[n as int + 2],
            ));
        } else {
            lemma_class_shift(set, k, n + 1);
        }
    }
}

/// In a class, two characters with `-` between them stand for every character
/// from the first to the second, both of them too. Any other character stands
/// for itself. The class holds what its parts stand for, and nothing else.
pub proof fn law_a_class_holds_its_ranges(a: char, b: char, rest: Seq<char>, c: char)
    ensures
        class_set(seq![a, '-', b], 0).contains(c) <==> a <= c <= b,
        class_set(seq![a, '-', b] + rest, 0).contains(c) <==> a <= c <= b || class_set(
            rest,
            0,
        ).contains(c),
        rest.len() < 2 || rest[0] != '-' ==> (class_set(seq![a] + rest, 0).contains(c) <==> c == a
            || class_set(rest, 0).contains(c)),
        !class_set(Seq::empty(), 0).contains(c),
{
    let three = seq![a, '-', b];
    assert(class_set(three, 3) == Set::<char>::empty());
    let s = three + rest;
    assert(s[0] == a && s[1] == '-' && s[2] == b);
    lemma_class_rest(s, 3);
    assert(s.skip(3) == rest);
    let t = seq![a] + rest;
    assert(t[0] == a);
    lemma_class_rest(t, 1);
    assert(t.skip(1) == rest);
    if rest.len() > 0 {
        assert(t[1] == rest[0]);
    }
}

proof fn lemma_next_more(p: Seq<char>, q: Seq<char>, c: char, i: nat)
    requires
        i <= p.len(),
        text::next_at(p, c, i) < p.len(),
    ensures
        text::next_at(p + q, c, i) == text::next_at(p, c, i),
{
    text::lemma_next_at(p, c, i);
    let n = text::next_at(p, c, i);
    let s = p + q;
    assert forall|j: int| i <= j < n implies s[j] != c by {
        assert(s[j] == p[j]);
    }
    text::lemma_next_is(s, c, i, n);
}

proof fn lemma_next_shift(p: Seq<char>, q: Seq<char>, c: char, k: nat)
    requires
        k <= q.len(),
    ensures
        text::next_at(p + q, c, p.len() + k) == p.len() + text::next_at(q, c, k),
{
    text::lemma_next_at(q, c, k);
    let n = text::next_at(q, c, k);
    let s = p + q;
    assert forall|j: int| p.len() + k <= j < p.len() + n implies s[j] != c by {
        assert(s[j] == q[j - p.len()]);
    }
    text::lemma_next_is(s, c, p.len() + k, p.len() + n);
}

/// A part that ends within the first text is the same part with more behind it.
proof fn lemma_part_more(p: Seq<char>, q: Seq<char>, i: nat)
    requires
        i < p.len(),
        part_at(p, i) is Ok,
    ensures
        part_at(p + q, i) == part_at(p, i),
        i < part_at(p, i)->Ok_0.1 <= p.len(),
{
    let s = p + q;
    assert(s[i as int] == p[i as int]);
    if p[i as int] == '[' {
        text::lemma_next_at(p, ']', i);
        lemma_next_more(p, q, ']', i);
        let close = text::next_at(p, ']', i);
        assert(s.subrange(i as int + 1, close as int) == p.subrange(i as int + 1, close as int));
    }
}

proof fn lemma_part_shift(p: Seq<char>, q: Seq<char>, k: nat)
    requires
        k < q.len(),
    ensures
        part_at(q, k) is Ok ==> part_at(p + q, p.len() + k) is Ok && part_at(
            p + q,
            p.len() + k,
        )->Ok_0 == (part_at(q, k)->Ok_0.0, p.len() + part_at(q, k)->Ok_0.1) && k < part_at(
            q,
            k,
        )->Ok_0.1 <= q.len(),
        part_at(q, k) is Err ==> part_at(p + q, p.len() + k) is Err,
{
    let s = p + q;
    let n = p.len() + k;
    assert(s[n as int] == q[k as int]);
    if k + 1 < q.len() {
        assert(s[n as int + 1] == q[k as int + 1]);
    }
    text::lemma_next_at(q, ']', k);
    lemma_next_shift(p, q, ']', k);
    let close = text::next_at(q, ']', k);
    if q[k as int] == '[' && close < q.len() {
        assert(s.subrange(n as int + 1, p.len() as int + close) == q.subrange(
            k as int + 1,
            close as int,
        ));
    }
}

proof fn lemma_read_more(p: Seq<char>, q: Seq<char>, i: nat, done: Seq<Form>)
    requires
        i <= p.len(),
        read_from(p, i, done) is Ok,
    ensures
        read_from(p + q, i, done) == read_from(p + q, p.len(), read_from(p, i, done)->Ok_0),
    decreases p.len() - i,
{
    if i < p.len() {
        assert((p + q)[i as int] == p[i as int]);
        if repeats(p[i as int]) {
            lemma_read_more(
                p,
                q,
                i + 1,
                done.drop_last().push(repeated(p[i as int], done.last())),
            );
        } else {
            lemma_part_more(p, q, i);
            let (f, next) = part_at(p, i)->Ok_0;
            lemma_read_more(p, q, next, done.push(f));
        }
    }
}

proof fn lemma_read_shift(p: Seq<char>, q: Seq<char>, k: nat, before: Seq<Form>, done: Seq<Form>)
    requires
        k <= q.len(),
        done.len() > 0 || k == q.len() || !repeats(q[k as int]),
    ensures
        read_from(q, k, done) is Ok ==> read_from(p + q, p.len() + k, before + done) == Ok::<
            Seq<Form>,
            Seq<char>,
        >(before + read_from(q, k, done)->Ok_0),
        read_from(q, k, done) is Err ==> read_from(p + q, p.len() + k, before + done) is Err,
    decreases q.len() - k,
{
    let s = p + q;
    let n = p.len() + k;
    if k < q.len() {
        assert(s[n as int] == q[k as int]);
        if repeats(q[k as int]) {
            let next = done.drop_last().push(repeated(q[k as int], done.last()));
            lemma_read_shift(p, q, k + 1, before, next);
            assert((before + done).last() == done.last());
            assert((before + done).drop_last().push(repeated(q[k as int], done.last())) == before
                + next);
        } else {
            lemma_part_shift(p, q, k);
            if part_at(q, k) is Ok {
                let (f, next) = part_at(q, k)->Ok_0;
                lemma_read_shift(p, q, next, before, done.push(f));
                assert((before + done).push(f) == before + done.push(f));
            }
        }
    }
}

/// A pattern is read part by part: the forms of two patterns one after the other
/// are the forms of the first and the forms of the second, where no repeat mark
/// begins the second.
pub proof fn law_patterns_join(p: Seq<char>, q: Seq<char>)
    requires
        read(p) is Ok,
        q.len() == 0 || !(q[0] == '*' || q[0] == '+' || q[0] == '?'),
    ensures
        read(q) is Ok ==> read(p + q) == Ok::<Seq<Form>, Seq<char>>(
            read(p)->Ok_0 + read(q)->Ok_0,
        ),
        read(q) is Err ==> read(p + q) is Err,
{
    lemma_read_more(p, q, 0, Seq::empty());
    lemma_read_shift(p, q, 0, read(p)->Ok_0, Seq::empty());
    assert(read(p)->Ok_0 + Seq::<Form>::empty() == read(p)->Ok_0);
}

/// A repeat mark repeats the part before it: `*` any number of times, `+` one
/// time at least, `?` one time at most. With nothing before it it is a fault.
pub proof fn law_a_mark_repeats_the_part_before_it(p: Seq<char>)
    requires
        read(p) is Ok,
        read(p)->Ok_0.len() > 0,
    ensures
        ({
            let f = read(p)->Ok_0;
            &&& read(p.push('*')) == Ok::<Seq<Form>, Seq<char>>(
                f.drop_last().push(Form::Star(Box::new(f.last()))),
            )
            &&& read(p.push('+')) == Ok::<Seq<Form>, Seq<char>>(
                f.drop_last().push(Form::Plus(Box::new(f.last()))),
            )
            &&& read(p.push('?')) == Ok::<Seq<Form>, Seq<char>>(
                f.drop_last().push(Form::Optional(Box::new(f.last()))),
            )
        }),
{
    lemma_mark(p, '*');
    lemma_mark(p, '+');
    lemma_mark(p, '?');
}

proof fn lemma_mark(p: Seq<char>, c: char)
    requires
        read(p) is Ok,
        read(p)->Ok_0.len() > 0,
        repeats(c),
    ensures
        read(p.push(c)) == Ok::<Seq<Form>, Seq<char>>(
            read(p)->Ok_0.drop_last().push(repeated(c, read(p)->Ok_0.last())),
        ),
{
    let q = seq![c];
    assert(p + q == p.push(c));
    lemma_read_more(p, q, 0, Seq::empty());
    assert((p + q)[p.len() as int] == c);
    let f = read(p)->Ok_0;
    let next = f.drop_last().push(repeated(c, f.last()));
    assert(read_from(p + q, p.len() + 1, next) == Ok::<Seq<Form>, Seq<char>>(next));
}

/// One part: `.` is any character, `\` makes the character behind it a plain
/// one, and a character with no meaning of its own is itself.
pub proof fn law_one_part(c: char)
    ensures
        read(seq!['.']) == Ok::<Seq<Form>, Seq<char>>(seq![Form::Any]),
        read(seq!['\\', c]) == Ok::<Seq<Form>, Seq<char>>(seq![Form::Char(c)]),
        plain_char(c) ==> read(seq![c]) == Ok::<Seq<Form>, Seq<char>>(seq![Form::Char(c)]),
        !plain_char(c) && c != '.' ==> read(seq![c]) is Err,
        read(Seq::empty()) == Ok::<Seq<Form>, Seq<char>>(Seq::empty()),
{
    let none = Seq::<Form>::empty();
    let dot = seq!['.'];
    assert(read_from(dot, 1, none.push(Form::Any)) == Ok::<Seq<Form>, Seq<char>>(
        none.push(Form::Any),
    ));
    assert(none.push(Form::Any) == seq![Form::Any]);
    let escaped = seq!['\\', c];
    assert(read_from(escaped, 2, none.push(Form::Char(c))) == Ok::<Seq<Form>, Seq<char>>(
        none.push(Form::Char(c)),
    ));
    assert(none.push(Form::Char(c)) == seq![Form::Char(c)]);
    let one = seq![c];
    assert(read_from(one, 1, none.push(Form::Char(c))) == Ok::<Seq<Form>, Seq<char>>(
        none.push(Form::Char(c)),
    ));
    if c == '[' {
        text::lemma_next_at(one, ']', 0);
    }
}

/// A character that stands for itself in a pattern.
pub open spec fn plain_char(c: char) -> bool {
    !(c == '.' || c == '\\' || c == '[' || c == '(' || c == ')' || c == '*' || c == '+' || c == '?')
}

/// A class is one part. With `^` behind the `[` it holds every character but
/// those that the rest of it lists.
pub proof fn law_a_class_is_one_part(set: Seq<char>)
    requires
        forall|j: int| 0 <= j < set.len() ==> #[trigger] set[j] != ']',
    ensures
        set.len() == 0 || set[0] != '^' ==> read(seq!['['] + set + seq![']']) == Ok::<
            Seq<Form>,
            Seq<char>,
        >(seq![Form::Class(class_set(set, 0), false)]),
        read(seq!['[', '^'] + set + seq![']']) == Ok::<Seq<Form>, Seq<char>>(
            seq![Form::Class(class_set(set, 0), true)],
        ),
        read(seq!['['] + set) is Err,
{
    let p = seq!['['] + set + seq![']'];
    let n = set.len() + 1;
    assert(p[0] == '[' && p[n as int] == ']');
    assert forall|j: int| 0 <= j < n implies p[j] != ']' by {
        if j > 0 {
            assert(p[j] == set[j - 1]);
        }
    }
    text::lemma_next_is(p, ']', 0, n);
    assert(p.subrange(1, n as int) == set);
    let q = seq!['[', '^'] + set + seq![']'];
    let m = set.len() + 2;
    assert(q[0] == '[' && q[1] == '^' && q[m as int] == ']');
    assert forall|j: int| 0 <= j < m implies q[j] != ']' by {
        if j > 1 {
            assert(q[j] == set[j - 2]);
        }
    }
    text::lemma_next_is(q, ']', 0, m);
    let inner = q.subrange(1, m as int);
    assert(inner[0] == '^');
    assert(inner.skip(1) == set);
    let none = Seq::<Form>::empty();
    if set.len() == 0 || set[0] != '^' {
        assert(read_from(p, n + 1, none.push(Form::Class(class_set(set, 0), false))) == Ok::<
            Seq<Form>,
            Seq<char>,
        >(none.push(Form::Class(class_set(set, 0), false))));
        assert(none.push(Form::Class(class_set(set, 0), false)) == seq![
            Form::Class(class_set(set, 0), false),
        ]);
    }
    assert(read_from(q, m + 1, none.push(Form::Class(class_set(set, 0), true))) == Ok::<
        Seq<Form>,
        Seq<char>,
    >(none.push(Form::Class(class_set(set, 0), true))));
    assert(none.push(Form::Class(class_set(set, 0), true)) == seq![
        Form::Class(class_set(set, 0), true),
    ]);
    let open = seq!['['] + set;
    assert(open[0] == '[');
    assert forall|j: int| 0 <= j < open.len() implies open[j] != ']' by {
        if j > 0 {
            assert(open[j] == set[j - 1]);
        }
    }
    text::lemma_next_is(open, ']', 0, open.len());
}

/// What each form can stand on: a plain character on itself, `.` on any one
/// character, a class on one character that it holds, and a repeat on as many
/// characters of its kind as its mark allows.
pub proof fn law_one_form(f: Form, line: Seq<char>, p: nat, q: nat)
    ensures
        f matches Form::Char(c) ==> (spans(seq![f], line, p, q) <==> p < line.len() && q == p + 1
            && line[p as int] == c),
        f is Any ==> (spans(seq![f], line, p, q) <==> p < line.len() && q == p + 1),
        f matches Form::Class(set, negated) ==> (spans(seq![f], line, p, q) <==> p < line.len() && q
            == p + 1 && (set.contains(line[p as int]) <==> !negated)),
        f matches Form::Star(u) ==> (spans(seq![f], line, p, q) <==> p <= q <= line.len() && (
        forall|i: int| p <= i < q ==> fits(*u, #[trigger] line[i]))),
        f matches Form::Plus(u) ==> (spans(seq![f], line, p, q) <==> p < q <= line.len() && (forall|
            i: int,
        | p <= i < q ==> fits(*u, #[trigger] line[i]))),
        f matches Form::Optional(u) ==> (spans(seq![f], line, p, q) <==> p <= q <= line.len() && q
            <= p + 1 && (forall|i: int| p <= i < q ==> fits(*u, #[trigger] line[i]))),
{
    let list = seq![f];
    assert(list[0] == f);
    assert(list.skip(1) == Seq::<Form>::empty());
    assert(forall|a: nat| spans(Seq::<Form>::empty(), line, a, q) <==> a == q);
    if q >= p {
        let k = (q - p) as nat;
        assert(spans(list.skip(1), line, p + k, q));
        assert(takes(list[0], line, p, k) ==> spans(list, line, p, q));
        if f is Char || f is Any || f is Class {
            if p < line.len() && q == p + 1 {
                assert(fits(f, line[p as int]) ==> takes(f, line, p, 1));
            }
        }
    }
    if spans(list, line, p, q) {
        let k = choose|k: nat| #[trigger]
            takes(list[0], line, p, k) && spans(list.skip(1), line, p + k, q);
        assert(p + k == q);
        assert(takes(f, line, p, k));
        if f is Char || f is Any || f is Class {
            assert(k == 1);
            assert(fits(unit(f), line[p as int]));
        }
    }
}

/// Forms one after the other stand on parts of the line one after the other.
pub proof fn law_forms_join(a: Seq<Form>, b: Seq<Form>, line: Seq<char>, p: nat, q: nat)
    ensures
        spans(a + b, line, p, q) <==> exists|m: nat| #[trigger]
            spans(a, line, p, m) && spans(b, line, m, q),
    decreases a.len(),
{
    let s = a + b;
    if a.len() == 0 {
        assert(s == b);
        assert(spans(a, line, p, p));
    } else {
        assert(s[0] == a[0]);
        assert(s.skip(1) == a.skip(1) + b);
        if spans(s, line, p, q) {
            let k = choose|k: nat| #[trigger]
                takes(s[0], line, p, k) && spans(s.skip(1), line, p + k, q);
            law_forms_join(a.skip(1), b, line, p + k, q);
            let m = choose|m: nat| #[trigger]
                spans(a.skip(1), line, p + k, m) && spans(b, line, m, q);
            assert(takes(a[0], line, p, k) && spans(a.skip(1), line, p + k, m));
            assert(spans(a, line, p, m));
        }
        if exists|m: nat| #[trigger] spans(a, line, p, m) && spans(b, line, m, q) {
            let m = choose|m: nat| #[trigger] spans(a, line, p, m) && spans(b, line, m, q);
            let k = choose|k: nat| #[trigger]
                takes(a[0], line, p, k) && spans(a.skip(1), line, p + k, m);
            law_forms_join(a.skip(1), b, line, p + k, q);
            assert(takes(s[0], line, p, k) && spans(s.skip(1), line, p + k, q));
        }
    }
}

/// The pattern with a `^` before it and a `$` behind it, where they are wanted.
pub open spec fn tied(p: Seq<char>, start: bool, end: bool) -> Seq<char> {
    (if start {
        seq!['^']
    } else {
        Seq::<char>::empty()
    }) + p + (if end {
        seq!['$']
    } else {
        Seq::<char>::empty()
    })
}

/// A pattern of one alternative matches a line exactly when its forms can stand
/// somewhere on the line: from the start of it behind a `^`, and up to the end of
/// it before a `$`.
pub proof fn law_one_alternative(p: Seq<char>, start: bool, end: bool, line: Seq<char>)
    requires
        forall|j: int| 0 <= j < p.len() ==> #[trigger] p[j] != '|',
        start || p.len() == 0 || p[0] != '^',
        end || p.len() == 0 || p.last() != '$',
        read(p) is Ok,
    ensures
        meaning(tied(p, start, end), false) is Ok,
        answers(meaning(tied(p, start, end), false)->Ok_0, line) <==> exists|s: nat, q: nat|
            s <= line.len() && (start ==> s == 0) && (end ==> q == line.len()) && #[trigger] spans(
                read(p)->Ok_0,
                line,
                s,
                q,
            ),
{
    let whole = tied(p, start, end);
    assert forall|j: int| 0 <= j < whole.len() implies #[trigger] whole[j] != '|' by {
        let k = j - if start {
            1int
        } else {
            0int
        };
        if 0 <= k < p.len() {
            assert(whole[j] == p[k]);
        }
    }
    text::lemma_one_part(whole, '|');
    let list = text::parts(whole, '|');
    assert(list == seq![whole]);
    if start {
        assert(whole[0] == '^');
    } else if p.len() > 0 {
        assert(whole[0] == p[0]);
    } else if end {
        assert(whole[0] == '$');
    }
    assert(ties_start(whole) == start);
    let inner = after_start(whole);
    assert(inner == p + if end {
        seq!['$']
    } else {
        Seq::<char>::empty()
    });
    if end {
        assert(inner.last() == '$');
        assert(inner.drop_last() == p);
    } else {
        assert(inner == p);
    }
    assert(ties_end(whole) == end);
    assert(body(whole) == p);
    assert(read_all(list, 0) == Ok::<Seq<Seq<Form>>, Seq<char>>(Seq::empty()));
    assert(list[0] == whole);
    let forms = read(p)->Ok_0;
    assert(read_all(list, 1) == Ok::<Seq<Seq<Form>>, Seq<char>>(
        Seq::<Seq<Form>>::empty().push(forms),
    ));
    let m = meaning(whole, false)->Ok_0;
    assert(m.alternatives == seq![forms]);
    assert(m.anchored_start == start) by {
        assert(ties_start(list[0]) == start);
    }
    assert(m.anchored_end == end) by {
        assert(ties_end(list[0]) == end);
    }
    law_match_is_a_place(m, line);
    assert(m.alternatives[0] == forms);
    if exists|s: nat, q: nat|
        s <= line.len() && (start ==> s == 0) && (end ==> q == line.len()) && #[trigger] spans(
            forms,
            line,
            s,
            q,
        ) {
        let (s, q) = choose|s: nat, q: nat|
            s <= line.len() && (start ==> s == 0) && (end ==> q == line.len()) && #[trigger] spans(
                forms,
                line,
                s,
                q,
            );
        assert(spans(m.alternatives[0], line, s, q));
    }
}

/// The forms of plain characters.
spec fn char_forms(p: Seq<char>) -> Seq<Form>
    decreases p.len(),
{
    if p.len() == 0 {
        Seq::empty()
    } else {
        char_forms(p.drop_last()).push(Form::Char(p.last()))
    }
}

proof fn lemma_last_form(p: Seq<char>, c: char)
    ensures
        char_forms(p.push(c)) == char_forms(p) + seq![Form::Char(c)],
{
    assert(p.push(c).drop_last() == p);
    assert(p.push(c).last() == c);
}

proof fn lemma_read_plain(p: Seq<char>)
    requires
        forall|j: int| 0 <= j < p.len() ==> plain_char(#[trigger] p[j]),
    ensures
        read(p) == Ok::<Seq<Form>, Seq<char>>(char_forms(p)),
    decreases p.len(),
{
    if p.len() == 0 {
        law_one_part('a');
        assert(p == Seq::<char>::empty());
        assert(char_forms(p) == Seq::<Form>::empty());
    } else {
        let less = p.drop_last();
        let c = p.last();
        lemma_read_plain(less);
        law_one_part(c);
        assert(plain_char(c)) by {
            assert(p[p.len() - 1] == c);
        }
        law_patterns_join(less, seq![c]);
        assert(less + seq![c] == p);
        assert(char_forms(less) + seq![Form::Char(c)] == char_forms(p));
    }
}

/// True when the text stands on the line from `s` to `q`.
spec fn stands_plain(p: Seq<char>, line: Seq<char>, s: nat, q: nat) -> bool {
    &&& q == s + p.len()
    &&& p.len() == 0 || q <= line.len()
    &&& forall|j: int| 0 <= j < p.len() ==> line[s + j] == #[trigger] p[j]
}

proof fn lemma_spans_push(less: Seq<char>, c: char, line: Seq<char>, s: nat, q: nat)
    requires
        forall|m: nat| #[trigger]
            spans(char_forms(less), line, s, m) <==> stands_plain(less, line, s, m),
    ensures
        spans(char_forms(less.push(c)), line, s, q) <==> stands_plain(less.push(c), line, s, q),
{
    let p = less.push(c);
    let front = char_forms(less);
    let last = seq![Form::Char(c)];
    let n = s + less.len();
    lemma_last_form(less, c);
    law_forms_join(front, last, line, s, q);
    law_one_form(Form::Char(c), line, n, q);
    if spans(char_forms(p), line, s, q) {
        let m = choose|m: nat| #[trigger] spans(front, line, s, m) && spans(last, line, m, q);
        assert(stands_plain(less, line, s, m));
        assert(m == n);
        assert forall|j: int| 0 <= j < p.len() implies line[s + j] == #[trigger] p[j] by {
            if j < less.len() {
                assert(less[j] == p[j]);
            }
        }
    }
    if stands_plain(p, line, s, q) {
        assert forall|j: int| 0 <= j < less.len() implies line[s + j] == #[trigger] less[j] by {
            assert(less[j] == p[j]);
        }
        assert(p[p.len() - 1] == c);
        assert(line[s + (p.len() - 1)] == c);
        assert(stands_plain(less, line, s, n));
        assert(spans(front, line, s, n) && spans(last, line, n, q));
    }
}

proof fn lemma_spans_plain(p: Seq<char>, line: Seq<char>, s: nat)
    ensures
        forall|q: nat| #[trigger]
            spans(char_forms(p), line, s, q) <==> stands_plain(p, line, s, q),
    decreases p.len(),
{
    if p.len() > 0 {
        lemma_spans_plain(p.drop_last(), line, s);
        assert(p.drop_last().push(p.last()) == p);
        assert forall|q: nat| #[trigger]
            spans(char_forms(p), line, s, q) <==> stands_plain(p, line, s, q) by {
            lemma_spans_push(p.drop_last(), p.last(), line, s, q);
        }
    }
}

/// A pattern of plain characters matches exactly the lines that hold its text:
/// at their start behind a `^`, and at their end before a `$`.
pub proof fn law_plain_text_matches_itself(p: Seq<char>, start: bool, end: bool, line: Seq<char>)
    requires
        forall|j: int| 0 <= j < p.len() ==> plain_char(#[trigger] p[j]) && p[j] != '|',
        start || p.len() == 0 || p[0] != '^',
        end || p.len() == 0 || p.last() != '$',
    ensures
        meaning(tied(p, start, end), false) is Ok,
        answers(meaning(tied(p, start, end), false)->Ok_0, line) <==> exists|at: int|
            0 <= at <= at + p.len() <= line.len() && (start ==> at == 0) && (end ==> at + p.len()
                == line.len()) && #[trigger] line.subrange(at, at + p.len()) == p,
{
    lemma_read_plain(p);
    law_one_alternative(p, start, end, line);
    let forms = read(p)->Ok_0;
    if exists|s: nat, q: nat|
        s <= line.len() && (start ==> s == 0) && (end ==> q == line.len()) && #[trigger] spans(
            forms,
            line,
            s,
            q,
        ) {
        let (s, q) = choose|s: nat, q: nat|
            s <= line.len() && (start ==> s == 0) && (end ==> q == line.len()) && #[trigger] spans(
                forms,
                line,
                s,
                q,
            );
        lemma_spans_plain(p, line, s);
        assert(stands_plain(p, line, s, q));
        assert(line.subrange(s as int, s as int + p.len()) == p);
    }
    if exists|at: int|
        0 <= at <= at + p.len() <= line.len() && (start ==> at == 0) && (end ==> at + p.len()
            == line.len()) && #[trigger] line.subrange(at, at + p.len()) == p {
        let at = choose|at: int|
            0 <= at <= at + p.len() <= line.len() && (start ==> at == 0) && (end ==> at + p.len()
                == line.len()) && #[trigger] line.subrange(at, at + p.len()) == p;
        assert forall|j: int| 0 <= j < p.len() implies line[at + j] == #[trigger] p[j] by {
            assert(line.subrange(at, at + p.len())[j] == line[at + j]);
        }
        lemma_spans_plain(p, line, at as nat);
        assert(stands_plain(p, line, at as nat, (at + p.len()) as nat));
        assert(spans(forms, line, at as nat, (at + p.len()) as nat));
    }
}

/// A fixed pattern matches exactly the lines that hold its text, whatever
/// characters it has.
pub proof fn law_fixed_text_matches_itself(p: Seq<char>, line: Seq<char>)
    ensures
        meaning(p, true) is Ok,
        answers(meaning(p, true)->Ok_0, line) <==> exists|at: int|
            0 <= at <= at + p.len() <= line.len() && #[trigger] line.subrange(at, at + p.len()) == p,
{
    if exists|at: int|
        0 <= at <= at + p.len() <= line.len() && #[trigger] line.subrange(at, at + p.len()) == p {
        let at = choose|at: int|
            0 <= at <= at + p.len() <= line.len() && #[trigger] line.subrange(at, at + p.len()) == p;
        assert(text::stands_at(line, p, at));
    }
    if text::holds(line, p) {
        let at = choose|at: int| text::stands_at(line, p, at);
        assert(line.subrange(at, at + p.len()) == p);
    }
}

/// A pattern that is only a class matches exactly the lines with a character in
/// the class, and one that is only a negated class those with a character
/// outside of it.
pub proof fn law_a_class_matches_its_characters(set: Seq<char>, line: Seq<char>)
    requires
        forall|j: int| 0 <= j < set.len() ==> #[trigger] set[j] != ']' && set[j] != '|',
    ensures
        set.len() == 0 || set[0] != '^' ==> meaning(seq!['['] + set + seq![']'], false) is Ok && (
        answers(meaning(seq!['['] + set + seq![']'], false)->Ok_0, line) <==> exists|i: int|
            0 <= i < line.len() && class_set(set, 0).contains(#[trigger] line[i])),
        meaning(seq!['[', '^'] + set + seq![']'], false) is Ok && (answers(
            meaning(seq!['[', '^'] + set + seq![']'], false)->Ok_0,
            line,
        ) <==> exists|i: int|
            0 <= i < line.len() && !class_set(set, 0).contains(#[trigger] line[i])),
{
    law_a_class_is_one_part(set);
    if set.len() == 0 || set[0] != '^' {
        let p = seq!['['] + set + seq![']'];
        assert forall|j: int| 0 <= j < p.len() implies #[trigger] p[j] != '|' by {
            if 1 <= j < p.len() - 1 {
                assert(p[j] == set[j - 1]);
            }
        }
        lemma_class_match(p, class_set(set, 0), false, line);
    }
    let p = seq!['[', '^'] + set + seq![']'];
    assert forall|j: int| 0 <= j < p.len() implies #[trigger] p[j] != '|' by {
        if 2 <= j < p.len() - 1 {
            assert(p[j] == set[j - 2]);
        }
    }
    lemma_class_match(p, class_set(set, 0), true, line);
}

proof fn lemma_class_match(p: Seq<char>, set: Set<char>, negated: bool, line: Seq<char>)
    requires
        forall|j: int| 0 <= j < p.len() ==> #[trigger] p[j] != '|',
        p.len() > 0,
        p[0] == '[',
        p.last() == ']',
        read(p) == Ok::<Seq<Form>, Seq<char>>(seq![Form::Class(set, negated)]),
    ensures
        meaning(p, false) is Ok,
        answers(meaning(p, false)->Ok_0, line) <==> exists|i: int|
            0 <= i < line.len() && set.contains(#[trigger] line[i]) != negated,
{
    assert(tied(p, false, false) == p);
    law_one_alternative(p, false, false, line);
    let f = Form::Class(set, negated);
    if answers(meaning(p, false)->Ok_0, line) {
        let (s, q) = choose|s: nat, q: nat|
            s <= line.len() && #[trigger] spans(read(p)->Ok_0, line, s, q);
        law_one_form(f, line, s, q);
        assert(set.contains(line[s as int]) != negated);
    }
    if exists|i: int| 0 <= i < line.len() && set.contains(#[trigger] line[i]) != negated {
        let i = choose|i: int| 0 <= i < line.len() && set.contains(#[trigger] line[i]) != negated;
        law_one_form(f, line, i as nat, (i + 1) as nat);
        assert(spans(read(p)->Ok_0, line, i as nat, (i + 1) as nat));
    }
}

/// The pattern `[a-b]` matches the line of one character `c` exactly when `c` is
/// one of the characters from `a` to `b`, and `[^a-b]` exactly when it is not.
pub proof fn law_a_range_matches_from_its_first_to_its_last(a: char, b: char, c: char)
    requires
        a != ']' && a != '|',
        b != ']' && b != '|',
    ensures
        a != '^' ==> meaning(seq!['[', a, '-', b, ']'], false) is Ok && (answers(
            meaning(seq!['[', a, '-', b, ']'], false)->Ok_0,
            seq![c],
        ) <==> a <= c <= b),
        meaning(seq!['[', '^', a, '-', b, ']'], false) is Ok && (answers(
            meaning(seq!['[', '^', a, '-', b, ']'], false)->Ok_0,
            seq![c],
        ) <==> !(a <= c <= b)),
{
    let set = seq![a, '-', b];
    law_a_class_matches_its_characters(set, seq![c]);
    law_a_class_holds_its_ranges(a, b, Seq::empty(), c);
    assert(seq!['['] + set + seq![']'] == seq!['[', a, '-', b, ']']);
    assert(seq!['[', '^'] + set + seq![']'] == seq!['[', '^', a, '-', b, ']']);
    assert(seq![c][0] == c);
    assert(forall|i: int| 0 <= i < seq![c].len() ==> #[trigger] seq![c][i] == c);
}

proof fn lemma_read_all_first(first: Seq<char>, list: Seq<Seq<char>>, n: nat)
    requires
        n <= list.len(),
        read(body(first)) is Ok,
    ensures
        read_all(list, n) is Ok ==> read_all(seq![first] + list, n + 1) == Ok::<
            Seq<Seq<Form>>,
            Seq<char>,
        >(seq![read(body(first))->Ok_0] + read_all(list, n)->Ok_0),
        read_all(list, n) is Err ==> read_all(seq![first] + list, n + 1) is Err,
    decreases n,
{
    let all = seq![first] + list;
    let f = read(body(first))->Ok_0;
    assert(all[0] == first);
    if n == 0 {
        assert(read_all(all, 0) == Ok::<Seq<Seq<Form>>, Seq<char>>(Seq::empty()));
        assert(Seq::<Seq<Form>>::empty().push(f) == seq![f] + Seq::<Seq<Form>>::empty());
    } else {
        lemma_read_all_first(first, list, (n - 1) as nat);
        assert(all[n as int] == list[n - 1]);
        if read_all(list, n) is Ok {
            let done = read_all(list, (n - 1) as nat)->Ok_0;
            let g = read(body(list[n - 1]))->Ok_0;
            assert((seq![f] + done).push(g) == seq![f] + done.push(g));
        }
    }
}

/// Where no alternative is tied, a pattern with `|` matches exactly the lines
/// that the alternative before it or the pattern behind it matches. A `^` or a
/// `$` in one of them ties them all.
pub proof fn law_either_alternative(p: Seq<char>, q: Seq<char>, line: Seq<char>)
    requires
        forall|j: int| 0 <= j < p.len() ==> #[trigger] p[j] != '|',
        meaning(p, false) is Ok,
        meaning(q, false) is Ok,
    ensures
        meaning(p.push('|') + q, false) is Ok,
        ({
            let m = meaning(p.push('|') + q, false)->Ok_0;
            let a = meaning(p, false)->Ok_0;
            let b = meaning(q, false)->Ok_0;
            &&& m.anchored_start == (a.anchored_start || b.anchored_start)
            &&& m.anchored_end == (a.anchored_end || b.anchored_end)
            &&& a.anchored_start == b.anchored_start && a.anchored_end == b.anchored_end ==> (
            answers(m, line) <==> answers(a, line) || answers(b, line))
        }),
{
    let whole = p.push('|') + q;
    let list = text::parts(q, '|');
    let all = text::parts(whole, '|');
    text::lemma_one_part(p, '|');
    text::lemma_first_part(p, q, '|');
    assert(all == seq![p] + list);
    assert(read_all(seq![p], 0) == Ok::<Seq<Seq<Form>>, Seq<char>>(Seq::empty()));
    assert(seq![p][0] == p);
    assert(read_all(seq![p], 1) is Ok);
    let f = read(body(p))->Ok_0;
    let a = meaning(p, false)->Ok_0;
    let b = meaning(q, false)->Ok_0;
    assert(a.alternatives == seq![f]);
    lemma_read_all_first(p, list, list.len());
    let m = meaning(whole, false)->Ok_0;
    assert(m.alternatives == seq![f] + b.alternatives);
    assert(all[0] == p);
    assert forall|i: int| 0 <= i < list.len() implies #[trigger] list[i] == all[i + 1] by {}
    assert(m.anchored_start == (a.anchored_start || b.anchored_start)) by {
        assert(ties_start(all[0]) == a.anchored_start);
        if b.anchored_start {
            let i = choose|i: int| 0 <= i < list.len() && ties_start(#[trigger] list[i]);
            assert(ties_start(all[i + 1]));
        }
        if m.anchored_start {
            let i = choose|i: int| 0 <= i < all.len() && ties_start(#[trigger] all[i]);
            if i > 0 {
                assert(list[i - 1] == all[i]);
            }
        }
    }
    assert(m.anchored_end == (a.anchored_end || b.anchored_end)) by {
        assert(ties_end(all[0]) == a.anchored_end);
        if b.anchored_end {
            let i = choose|i: int| 0 <= i < list.len() && ties_end(#[trigger] list[i]);
            assert(ties_end(all[i + 1]));
        }
        if m.anchored_end {
            let i = choose|i: int| 0 <= i < all.len() && ties_end(#[trigger] all[i]);
            if i > 0 {
                assert(list[i - 1] == all[i]);
            }
        }
    }
    if a.anchored_start == b.anchored_start && a.anchored_end == b.anchored_end {
        if answers(a, line) {
            let (i, s) = choose|i: int, s: nat|
                0 <= i < a.alternatives.len() && s <= line.len() && (a.anchored_start ==> s == 0)
                    && #[trigger] stands(a.alternatives[i], line, s, a.anchored_end);
            assert(m.alternatives[0] == a.alternatives[i]);
            assert(stands(m.alternatives[0], line, s, m.anchored_end));
        }
        if answers(b, line) {
            let (i, s) = choose|i: int, s: nat|
                0 <= i < b.alternatives.len() && s <= line.len() && (b.anchored_start ==> s == 0)
                    && #[trigger] stands(b.alternatives[i], line, s, b.anchored_end);
            assert(m.alternatives[i + 1] == b.alternatives[i]);
            assert(stands(m.alternatives[i + 1], line, s, m.anchored_end));
        }
        if answers(m, line) {
            let (i, s) = choose|i: int, s: nat|
                0 <= i < m.alternatives.len() && s <= line.len() && (m.anchored_start ==> s == 0)
                    && #[trigger] stands(m.alternatives[i], line, s, m.anchored_end);
            if i == 0 {
                assert(stands(a.alternatives[0], line, s, a.anchored_end));
            } else {
                assert(m.alternatives[i] == b.alternatives[i - 1]);
                assert(stands(b.alternatives[i - 1], line, s, b.anchored_end));
            }
        }
    }
}

/// A matcher of the pattern `[a-b]` accepts the line of one character `c`
/// exactly when `c` is one of the characters from `a` to `b`.
pub proof fn law_a_matcher_of_a_range(
    pattern: &str,
    line: &str,
    a: char,
    b: char,
    c: char,
    m: Result<Matcher, String>,
    r: bool,
)
    requires
        a != ']' && a != '|' && a != '^',
        b != ']' && b != '|',
        pattern@ == seq!['[', a, '-', b, ']'],
        line@ == seq![c],
        call_ensures(Matcher::new, (pattern, false), m),
        m is Ok ==> call_ensures(Matcher::matches, (&m->Ok_0, line), r),
    ensures
        m is Ok,
        r <==> a <= c <= b,
{
    law_a_range_matches_from_its_first_to_its_last(a, b, c);
}

/// A matcher of plain characters, or of any characters as fixed text, accepts
/// exactly the lines that hold its text.
pub proof fn law_a_matcher_of_plain_text(
    pattern: &str,
    line: &str,
    fixed: bool,
    m: Result<Matcher, String>,
    r: bool,
)
    requires
        fixed || forall|j: int|
            0 <= j < pattern@.len() ==> plain_char(#[trigger] pattern@[j]) && pattern@[j] != '|'
                && pattern@[j] != '^' && pattern@[j] != '$',
        call_ensures(Matcher::new, (pattern, fixed), m),
        m is Ok ==> call_ensures(Matcher::matches, (&m->Ok_0, line), r),
    ensures
        m is Ok,
        r <==> exists|at: int|
            0 <= at <= at + pattern@.len() <= line@.len() && #[trigger] line@.subrange(
                at,
                at + pattern@.len(),
            ) == pattern@,
{
    if fixed {
        law_fixed_text_matches_itself(pattern@, line@);
    } else {
        if pattern@.len() > 0 {
            assert(pattern@[0] != '^');
            assert(pattern@[pattern@.len() - 1] != '$');
        }
        law_plain_text_matches_itself(pattern@, false, false, line@);
        assert(tied(pattern@, false, false) == pattern@);
    }
}

/// The tokens of a pattern end where the forms of it can stand from the position,
/// at the last such place, and nowhere where they can stand on nothing.
pub proof fn law_where_the_tokens_end(
    tokens: &[Token],
    chars: &[char],
    position: usize,
    r: Option<usize>,
    q: nat,
)
    requires
        position <= chars@.len(),
        call_ensures(match_here, (tokens, chars, position), r),
    ensures
        r is Some ==> spans(forms(tokens@), chars@, position as nat, r->0 as nat),
        spans(forms(tokens@), chars@, position as nat, q) ==> r is Some && q <= r->0,
{
    law_first_end(forms(tokens@), chars@, position as nat);
    if spans(forms(tokens@), chars@, position as nat, q) {
        law_the_end_is_the_last_one(forms(tokens@), chars@, position as nat, q);
    }
}

/// One token takes one character: itself, any one, or one of its class.
pub proof fn law_what_one_token_takes(
    token: &Token,
    chars: &[char],
    position: usize,
    r: Option<usize>,
    c: char,
)
    requires
        chars@.len() <= usize::MAX,
        call_ensures(match_one, (token, chars, position), r),
    ensures
        r is Some ==> position < chars@.len() && r->0 == position + 1,
        *token == Token::Char(c) && position < chars@.len() ==> (r is Some
            <==> chars@[position as int] == c),
        *token is Any ==> (r is Some <==> position < chars@.len()),
{
}

} // verus!
