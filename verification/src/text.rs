//! Text as sequences of characters.
//!
//! Every function here says what it returns over the view of a string, which
//! is the sequence of its characters.

use vstd::prelude::*;
use vstd::string::*;

verus! {

/// `String::push` of the standard library: the character goes to the end of
/// the text, and nothing else changes.
pub assume_specification[ String::push ](s: &mut String, c: char)
    ensures
        final(s)@ == old(s)@.push(c),
;

/// The views of a list of strings.
pub open spec fn views(list: Seq<String>) -> Seq<Seq<char>> {
    list.map_values(|s: String| s@)
}

/// The views of a list of pairs of strings.
pub open spec fn pairs(list: Seq<(String, String)>) -> Seq<(Seq<char>, Seq<char>)> {
    list.map_values(|p: (String, String)| (p.0@, p.1@))
}

/// The view of a text that may be missing.
pub open spec fn opt_view(t: Option<String>) -> Option<Seq<char>> {
    match t {
        Some(s) => Some(s@),
        None => None,
    }
}

/// The characters of `s`.
pub fn chars(s: &str) -> (r: Vec<char>)
    ensures
        r@ == s@,
{
    let mut out: Vec<char> = Vec::new();
    for c in it: s.chars()
        invariant
            it.seq() == s@,
            out@ == s@.take(it.index()),
    {
        assert(s@.take(it.index() + 1) == s@.take(it.index()).push(c));
        out.push(c);
    }
    assert(s@.take(s@.len() as int) == s@);
    out
}

/// The characters from `from` to `to`, as text.
pub fn piece(chars: &Vec<char>, from: usize, to: usize) -> (r: String)
    requires
        from <= to <= chars@.len(),
    ensures
        r@ == chars@.subrange(from as int, to as int),
{
    let mut out = String::new();
    let mut i: usize = from;
    while i < to
        invariant
            from <= i <= to <= chars@.len(),
            out@ == chars@.subrange(from as int, i as int),
        decreases to - i,
    {
        out.push(chars[i]);
        assert(chars@.subrange(from as int, i + 1) == chars@.subrange(from as int, i as int).push(
            chars@[i as int],
        ));
        i += 1;
    }
    out
}

/// All the characters, as text.
pub fn from_chars(chars: &Vec<char>) -> (r: String)
    ensures
        r@ == chars@,
{
    let r = piece(chars, 0, chars.len());
    assert(chars@.subrange(0, chars@.len() as int) == chars@);
    r
}

/// A copy of `s`.
pub fn owned(s: &str) -> (r: String)
    ensures
        r@ == s@,
{
    String::from_str(s)
}

/// True when the two texts hold the same characters.
pub fn same(a: &str, b: &str) -> (r: bool)
    ensures
        r == (a@ == b@),
{
    let x = chars(a);
    let y = chars(b);
    if x.len() != y.len() {
        return false;
    }
    let mut i: usize = 0;
    while i < x.len()
        invariant
            x@ == a@,
            y@ == b@,
            x@.len() == y@.len(),
            i <= x@.len(),
            forall|j: int| 0 <= j < i ==> x@[j] == y@[j],
        decreases x@.len() - i,
    {
        if x[i] != y[i] {
            return false;
        }
        i += 1;
    }
    assert(x@ == y@);
    true
}

/// True when the text holds no character.
pub fn is_empty(s: &str) -> (r: bool)
    ensures
        r == (s@.len() == 0),
{
    chars(s).len() == 0
}

/// True when some text of the list holds the characters of `s`.
pub fn contains(list: &Vec<String>, s: &str) -> (r: bool)
    ensures
        r == views(list@).contains(s@),
{
    let mut i: usize = 0;
    while i < list.len()
        invariant
            i <= list@.len(),
            forall|j: int| 0 <= j < i ==> list@[j]@ != s@,
        decreases list@.len() - i,
    {
        if same(list[i].as_str(), s) {
            assert(views(list@)[i as int] == s@);
            return true;
        }
        i += 1;
    }
    assert forall|j: int| 0 <= j < views(list@).len() implies views(list@)[j] != s@ by {
        assert(views(list@)[j] == list@[j]@);
    }
    false
}

/// True when `b` begins at position `at` of `a`.
pub open spec fn stands_at(a: Seq<char>, b: Seq<char>, at: int) -> bool {
    0 <= at && at + b.len() <= a.len() && a.subrange(at, at + b.len()) == b
}

/// True when `b` stands somewhere in `a`.
pub open spec fn holds(a: Seq<char>, b: Seq<char>) -> bool {
    exists|at: int| stands_at(a, b, at)
}

/// True when `b` begins at position `at` of `a`.
pub fn is_at(a: &Vec<char>, b: &Vec<char>, at: usize) -> (r: bool)
    ensures
        r == stands_at(a@, b@, at as int),
{
    if b.len() > a.len() {
        return false;
    }
    if at > a.len() - b.len() {
        return false;
    }
    let mut i: usize = 0;
    while i < b.len()
        invariant
            at + b@.len() <= a.len(),
            i <= b@.len(),
            forall|j: int| 0 <= j < i ==> a@[at + j] == b@[j],
        decreases b@.len() - i,
    {
        if a[at + i] != b[i] {
            assert(a@.subrange(at as int, at + b@.len())[i as int] != b@[i as int]);
            return false;
        }
        i += 1;
    }
    assert(a@.subrange(at as int, at + b@.len()) == b@);
    true
}

/// True when `b` stands somewhere in `a`.
pub fn has(a: &Vec<char>, b: &Vec<char>) -> (r: bool)
    ensures
        r == holds(a@, b@),
{
    if b.len() > a.len() {
        return false;
    }
    let last: usize = a.len() - b.len();
    let mut at: usize = 0;
    loop
        invariant
            b@.len() + last == a@.len(),
            at <= last,
            forall|j: int| 0 <= j < at ==> !stands_at(a@, b@, j),
        decreases last - at,
    {
        if is_at(a, b, at) {
            return true;
        }
        if at == last {
            return false;
        }
        at += 1;
    }
}

/// True when `s` begins with `prefix`.
pub open spec fn begins(s: Seq<char>, prefix: Seq<char>) -> bool {
    stands_at(s, prefix, 0)
}

/// True when `s` begins with `prefix`.
pub fn starts_with(s: &str, prefix: &str) -> (r: bool)
    ensures
        r == begins(s@, prefix@),
{
    is_at(&chars(s), &chars(prefix), 0)
}

/// True when `s` ends with `suffix`.
pub open spec fn finishes(s: Seq<char>, suffix: Seq<char>) -> bool {
    suffix.len() <= s.len() && stands_at(s, suffix, s.len() - suffix.len())
}

/// True when `s` ends with `suffix`.
pub fn ends_with(s: &str, suffix: &str) -> (r: bool)
    ensures
        r == finishes(s@, suffix@),
{
    let a = chars(s);
    let b = chars(suffix);
    if a.len() < b.len() {
        return false;
    }
    is_at(&a, &b, a.len() - b.len())
}

/// The decimal digit of a number below ten.
pub open spec fn digit(d: nat) -> char {
    ('0' as u32 + d) as char
}

/// The decimal digits of `n`, with no leading zero.
pub open spec fn digits(n: nat) -> Seq<char>
    decreases n,
{
    if n < 10 {
        seq![digit(n)]
    } else {
        digits(n / 10).push(digit(n % 10))
    }
}

/// The digit character of `d`.
pub fn digit_char(d: u64) -> (r: char)
    requires
        d < 10,
    ensures
        r == digit(d as nat),
{
    match d {
        0 => '0',
        1 => '1',
        2 => '2',
        3 => '3',
        4 => '4',
        5 => '5',
        6 => '6',
        7 => '7',
        8 => '8',
        _ => '9',
    }
}

/// The decimal digits of `n`.
pub fn decimal(n: u64) -> (r: String)
    ensures
        r@ == digits(n as nat),
    decreases n,
{
    if n < 10 {
        let mut s = String::new();
        s.push(digit_char(n));
        s
    } else {
        let mut s = decimal(n / 10);
        s.push(digit_char(n % 10));
        s
    }
}

/// A signed number in decimal form.
pub open spec fn signed(n: int) -> Seq<char> {
    if n < 0 {
        "-"@ + digits((-n) as nat)
    } else {
        digits(n as nat)
    }
}

/// A signed number in decimal form.
pub fn signed_decimal(n: i64) -> (r: String)
    requires
        n > i64::MIN,
    ensures
        r@ == signed(n as int),
{
    if n < 0 {
        let mut m = owned("-");
        m.append(decimal((-n) as u64).as_str());
        m
    } else {
        decimal(n as u64)
    }
}

/// `s` with copies of `fill` before it, so that it has `width` characters at
/// least.
pub open spec fn padded(s: Seq<char>, fill: char, width: nat) -> Seq<char> {
    if s.len() >= width {
        s
    } else {
        Seq::new((width - s.len()) as nat, |i: int| fill) + s
    }
}

/// `s` with copies of `fill` before it, up to `width` characters.
pub fn pad_left(s: &str, fill: char, width: usize) -> (r: String)
    ensures
        r@ == padded(s@, fill, width as nat),
{
    let n: usize = s.unicode_len();
    let mut out = String::new();
    let mut i: usize = n;
    while i < width
        invariant
            n == s@.len(),
            n <= i,
            n <= width ==> i <= width,
            n > width ==> i == n,
            out@ == Seq::new((i - n) as nat, |j: int| fill),
        decreases width - i,
    {
        out.push(fill);
        i += 1;
        assert(out@ == Seq::new((i - n) as nat, |j: int| fill));
    }
    out.append(s);
    assert(n >= width ==> out@ == s@);
    out
}

/// The texts of `list` with `sep` between each two of them.
pub open spec fn joined(list: Seq<Seq<char>>, sep: Seq<char>) -> Seq<char>
    decreases list.len(),
{
    if list.len() == 0 {
        Seq::empty()
    } else if list.len() == 1 {
        list[0]
    } else {
        joined(list.drop_last(), sep) + sep + list.last()
    }
}

/// The texts of `list` with `sep` between each two of them.
pub fn join(list: &Vec<String>, sep: &str) -> (r: String)
    ensures
        r@ == joined(views(list@), sep@),
{
    let mut out = String::new();
    let mut i: usize = 0;
    while i < list.len()
        invariant
            i <= list@.len(),
            out@ == joined(views(list@).take(i as int), sep@),
        decreases list@.len() - i,
    {
        assert(views(list@).take(i + 1).drop_last() == views(list@).take(i as int));
        assert(views(list@).take(i + 1).last() == list@[i as int]@);
        if i > 0 {
            out.append(sep);
        }
        out.append(list[i].as_str());
        assert(i == 0 ==> out@ == list@[0]@);
        i += 1;
    }
    assert(views(list@).take(list@.len() as int) == views(list@));
    out
}

/// The white space of Unicode.
pub open spec fn white(c: char) -> bool {
    ||| '\u{9}' <= c <= '\u{d}'
    ||| c == ' '
    ||| c == '\u{85}'
    ||| c == '\u{a0}'
    ||| c == '\u{1680}'
    ||| '\u{2000}' <= c <= '\u{200a}'
    ||| c == '\u{2028}'
    ||| c == '\u{2029}'
    ||| c == '\u{202f}'
    ||| c == '\u{205f}'
    ||| c == '\u{3000}'
}

/// True for the white space of Unicode.
pub fn is_white(c: char) -> (r: bool)
    ensures
        r == white(c),
{
    ('\u{9}' <= c && c <= '\u{d}') || c == ' ' || c == '\u{85}' || c == '\u{a0}' || c == '\u{1680}'
        || ('\u{2000}' <= c && c <= '\u{200a}') || c == '\u{2028}' || c == '\u{2029}' || c
        == '\u{202f}' || c == '\u{205f}' || c == '\u{3000}'
}

/// The control characters of Unicode.
pub open spec fn control(c: char) -> bool {
    c <= '\u{1f}' || '\u{7f}' <= c <= '\u{9f}'
}

/// True for a control character.
pub fn is_control(c: char) -> (r: bool)
    ensures
        r == control(c),
{
    c <= '\u{1f}' || ('\u{7f}' <= c && c <= '\u{9f}')
}

/// The number of white characters at the start of `s`.
pub open spec fn lead(s: Seq<char>) -> nat
    decreases s.len(),
{
    if s.len() > 0 && white(s[0]) {
        1 + lead(s.skip(1))
    } else {
        0
    }
}

/// The position after the last character of `s` that is not white.
pub open spec fn last_solid(s: Seq<char>) -> nat
    decreases s.len(),
{
    if s.len() == 0 {
        0
    } else if white(s.last()) {
        last_solid(s.drop_last())
    } else {
        s.len()
    }
}

/// `s` with no white character at either end.
pub open spec fn trimmed(s: Seq<char>) -> Seq<char> {
    if lead(s) >= s.len() {
        Seq::empty()
    } else {
        s.subrange(lead(s) as int, last_solid(s) as int)
    }
}

pub proof fn lemma_lead(s: Seq<char>, n: int)
    requires
        0 <= n <= s.len(),
        forall|j: int| 0 <= j < n ==> white(s[j]),
        n == s.len() || !white(s[n]),
    ensures
        lead(s) == n,
    decreases n,
{
    if n > 0 {
        assert(s.skip(1).len() == s.len() - 1);
        assert forall|j: int| 0 <= j < n - 1 implies white(s.skip(1)[j]) by {
            assert(s.skip(1)[j] == s[j + 1]);
        }
        if n < s.len() {
            assert(s.skip(1)[n - 1] == s[n]);
        }
        assert(white(s[0]));
        lemma_lead(s.skip(1), n - 1);
    }
}

pub proof fn lemma_last_solid(s: Seq<char>, n: int)
    requires
        0 <= n <= s.len(),
        forall|j: int| n <= j < s.len() ==> white(s[j]),
        n == 0 || !white(s[n - 1]),
    ensures
        last_solid(s) == n,
    decreases s.len(),
{
    if s.len() > 0 && n < s.len() {
        assert(white(s.last()));
        assert forall|j: int| n <= j < s.drop_last().len() implies white(s.drop_last()[j]) by {
            assert(s.drop_last()[j] == s[j]);
        }
        lemma_last_solid(s.drop_last(), n);
    }
}

/// `s` with no white character at either end.
pub fn trim(s: &str) -> (r: String)
    ensures
        r@ == trimmed(s@),
{
    let c = chars(s);
    let mut from: usize = 0;
    while from < c.len() && is_white(c[from])
        invariant
            c@ == s@,
            from <= c@.len(),
            forall|j: int| 0 <= j < from ==> white(c@[j]),
        decreases c@.len() - from,
    {
        from += 1;
    }
    proof {
        lemma_lead(s@, from as int);
    }
    if from == c.len() {
        return String::new();
    }
    let mut to: usize = c.len();
    while is_white(c[to - 1])
        invariant
            c@ == s@,
            from < to <= c@.len(),
            !white(c@[from as int]),
            forall|j: int| to <= j < c@.len() ==> white(c@[j]),
        decreases to,
    {
        to -= 1;
    }
    proof {
        lemma_last_solid(s@, to as int);
    }
    piece(&c, from, to)
}

/// The ASCII capital letters made small; every other character stays.
pub open spec fn small(c: char) -> char {
    if 'A' <= c <= 'Z' {
        (c as u32 + 32) as char
    } else {
        c
    }
}

/// `s` with its ASCII capital letters made small.
pub open spec fn lowered(s: Seq<char>) -> Seq<char> {
    s.map_values(|c: char| small(c))
}

/// The ASCII capital letters made small.
pub fn to_small(c: char) -> (r: char)
    ensures
        r == small(c),
{
    if 'A' <= c && c <= 'Z' {
        (c as u8 + 32) as char
    } else {
        c
    }
}

/// `s` with its ASCII capital letters made small.
pub fn lower(s: &str) -> (r: String)
    ensures
        r@ == lowered(s@),
{
    let c = chars(s);
    let mut out = String::new();
    let mut i: usize = 0;
    while i < c.len()
        invariant
            c@ == s@,
            i <= c@.len(),
            out@ == lowered(s@.take(i as int)),
        decreases c@.len() - i,
    {
        out.push(to_small(c[i]));
        assert(lowered(s@.take(i + 1)) == lowered(s@.take(i as int)).push(small(s@[i as int])));
        i += 1;
    }
    assert(s@.take(s@.len() as int) == s@);
    out
}

/// The ASCII small letters made capital; every other character stays.
pub open spec fn capital(c: char) -> char {
    if 'a' <= c <= 'z' {
        (c as u32 - 32) as char
    } else {
        c
    }
}

/// `s` with its ASCII small letters made capital.
pub open spec fn raised(s: Seq<char>) -> Seq<char> {
    s.map_values(|c: char| capital(c))
}

/// The ASCII small letters made capital.
pub fn to_capital(c: char) -> (r: char)
    ensures
        r == capital(c),
{
    if 'a' <= c && c <= 'z' {
        (c as u8 - 32) as char
    } else {
        c
    }
}

/// `s` with its ASCII small letters made capital.
pub fn upper(s: &str) -> (r: String)
    ensures
        r@ == raised(s@),
{
    let c = chars(s);
    let mut out = String::new();
    let mut i: usize = 0;
    while i < c.len()
        invariant
            c@ == s@,
            i <= c@.len(),
            out@ == raised(s@.take(i as int)),
        decreases c@.len() - i,
    {
        out.push(to_capital(c[i]));
        assert(raised(s@.take(i + 1)) == raised(s@.take(i as int)).push(capital(s@[i as int])));
        i += 1;
    }
    assert(s@.take(s@.len() as int) == s@);
    out
}

/// The position of the first `c` in `s` from position `i`, or the length of
/// `s`.
pub open spec fn next_at(s: Seq<char>, c: char, i: nat) -> nat
    decreases s.len() - i,
{
    if i >= s.len() {
        s.len()
    } else if s[i as int] == c {
        i
    } else {
        next_at(s, c, i + 1)
    }
}

pub proof fn lemma_next_at(s: Seq<char>, c: char, i: nat)
    requires
        i <= s.len(),
    ensures
        i <= next_at(s, c, i) <= s.len(),
        next_at(s, c, i) < s.len() ==> s[next_at(s, c, i) as int] == c,
        forall|j: int| i <= j < next_at(s, c, i) ==> s[j] != c,
    decreases s.len() - i,
{
    if i < s.len() && s[i as int] != c {
        lemma_next_at(s, c, i + 1);
    }
}

/// The position of the first `c` from position `i`, or the length.
pub fn find(s: &Vec<char>, c: char, i: usize) -> (r: usize)
    requires
        i <= s@.len(),
    ensures
        r == next_at(s@, c, i as nat),
        i <= r <= s@.len(),
        r < s@.len() ==> s@[r as int] == c,
        forall|j: int| i <= j < r ==> s@[j] != c,
{
    let mut k: usize = i;
    while k < s.len() && s[k] != c
        invariant
            i <= k <= s@.len(),
            next_at(s@, c, i as nat) == next_at(s@, c, k as nat),
        decreases s@.len() - k,
    {
        k += 1;
    }
    proof {
        lemma_next_at(s@, c, i as nat);
    }
    k
}

/// The parts of `s` between the characters `c`, from position `i`.
pub open spec fn parts_from(s: Seq<char>, c: char, i: nat) -> Seq<Seq<char>>
    decreases s.len() - i,
    when i <= s.len()
    via parts_from_ends
{
    let n = next_at(s, c, i);
    if n >= s.len() {
        seq![s.subrange(i as int, s.len() as int)]
    } else {
        seq![s.subrange(i as int, n as int)] + parts_from(s, c, n + 1)
    }
}

#[via_fn]
proof fn parts_from_ends(s: Seq<char>, c: char, i: nat) {
    lemma_next_at(s, c, i);
}

/// The parts of `s` between the characters `c`. There is one part more than
/// there are characters `c`.
pub open spec fn parts(s: Seq<char>, c: char) -> Seq<Seq<char>> {
    parts_from(s, c, 0)
}

/// The parts of `s` between the characters `c`.
pub fn split(s: &str, c: char) -> (r: Vec<String>)
    ensures
        views(r@) == parts(s@, c),
        r@.len() > 0,
{
    let text = chars(s);
    let mut out: Vec<String> = Vec::new();
    let mut i: usize = 0;
    loop
        invariant
            text@ == s@,
            i <= text@.len(),
            parts(s@, c) == views(out@) + parts_from(s@, c, i as nat),
        decreases text@.len() - i,
    {
        let n: usize = find(&text, c, i);
        let ghost before = out@;
        out.push(piece(&text, i, n));
        assert(views(out@) == views(before).push(s@.subrange(i as int, n as int)));
        if n == text.len() {
            assert(views(out@) == views(before) + parts_from(s@, c, i as nat));
            return out;
        }
        assert(views(out@) + parts_from(s@, c, n as nat + 1) == views(before) + parts_from(
            s@,
            c,
            i as nat,
        ));
        i = n + 1;
    }
}

/// `s` from position `i` on, with each `from` replaced by `to`. The places are
/// found from left to right, and they do not overlap.
pub open spec fn replaced(s: Seq<char>, from: Seq<char>, to: Seq<char>, i: nat) -> Seq<char>
    decreases s.len() - i,
    when from.len() > 0
{
    if i >= s.len() {
        Seq::empty()
    } else if stands_at(s, from, i as int) {
        to + replaced(s, from, to, i + from.len())
    } else {
        seq![s[i as int]] + replaced(s, from, to, i + 1)
    }
}

/// `s` with each `from` replaced by `to`.
pub fn replace(s: &str, from: &str, to: &str) -> (r: String)
    requires
        from@.len() > 0,
    ensures
        r@ == replaced(s@, from@, to@, 0),
{
    let c = chars(s);
    let f = chars(from);
    let mut out = String::new();
    let mut i: usize = 0;
    while i < c.len()
        invariant
            c@ == s@,
            f@ == from@,
            from@.len() > 0,
            i <= c@.len(),
            replaced(s@, from@, to@, 0) == out@ + replaced(s@, from@, to@, i as nat),
        decreases c@.len() - i,
    {
        let ghost before = out@;
        if is_at(&c, &f, i) {
            out.append(to);
            assert(before + (to@ + replaced(s@, from@, to@, i as nat + from@.len())) == out@
                + replaced(s@, from@, to@, i as nat + from@.len()));
            i += f.len();
        } else {
            out.push(c[i]);
            assert(before + (seq![s@[i as int]] + replaced(s@, from@, to@, i as nat + 1)) == out@
                + replaced(s@, from@, to@, i as nat + 1));
            i += 1;
        }
    }
    assert(out@ + Seq::<char>::empty() == out@);
    out
}

/// `s` with no carriage return at its end.
pub open spec fn chomped(s: Seq<char>) -> Seq<char> {
    if s.len() > 0 && s.last() == '\r' {
        s.drop_last()
    } else {
        s
    }
}

/// The lines of `s` from position `i`. A line ends with a line feed, or with
/// a carriage return and a line feed; the last line may have no ending.
pub open spec fn lines_from(s: Seq<char>, i: nat) -> Seq<Seq<char>>
    decreases s.len() - i,
    when i <= s.len()
    via lines_from_ends
{
    let n = next_at(s, '\n', i);
    if i >= s.len() {
        Seq::empty()
    } else if n >= s.len() {
        seq![s.subrange(i as int, s.len() as int)]
    } else {
        seq![chomped(s.subrange(i as int, n as int))] + lines_from(s, n + 1)
    }
}

#[via_fn]
proof fn lines_from_ends(s: Seq<char>, i: nat) {
    lemma_next_at(s, '\n', i);
}

/// The lines of `s`, with no line endings.
pub open spec fn lines_of(s: Seq<char>) -> Seq<Seq<char>> {
    lines_from(s, 0)
}

/// The text with a carriage return before each line feed.
pub open spec fn with_returns(s: Seq<char>) -> Seq<char>
    decreases s.len(),
{
    if s.len() == 0 {
        Seq::empty()
    } else if s.last() == '\n' {
        with_returns(s.drop_last()) + seq!['\r', '\n']
    } else {
        with_returns(s.drop_last()).push(s.last())
    }
}

pub proof fn lemma_next_is(s: Seq<char>, c: char, i: nat, n: nat)
    requires
        i <= n <= s.len(),
        n < s.len() ==> s[n as int] == c,
        forall|j: int| i <= j < n ==> s[j] != c,
    ensures
        next_at(s, c, i) == n,
{
    lemma_next_at(s, c, i);
    let m = next_at(s, c, i);
    if m < n {
        assert(s[m as int] != c);
    } else if m > n {
        assert(s[n as int] != c);
    }
}

proof fn lemma_lines_from(s: Seq<char>, i: nat)
    requires
        i <= s.len(),
    ensures
        lines_from(s, i) == lines_of(s.skip(i as int)),
    decreases s.len() - i,
{
    let rest = s.skip(i as int);
    lemma_next_at(s, '\n', i);
    let n = next_at(s, '\n', i);
    lemma_next_is(rest, '\n', 0, (n - i) as nat);
    if i < s.len() {
        if n >= s.len() {
            assert(s.subrange(i as int, s.len() as int) == rest.subrange(0, rest.len() as int));
        } else {
            lemma_lines_from(s, n + 1);
            lemma_lines_from(rest, (n - i + 1) as nat);
            assert(rest.skip(n - i + 1) == s.skip(n as int + 1));
            assert(s.subrange(i as int, n as int) == rest.subrange(0, n - i));
        }
    }
}

/// The first line, and the lines of what follows it.
proof fn lemma_first_line(s: Seq<char>, n: nat)
    requires
        n < s.len(),
        s[n as int] == '\n',
        forall|j: int| 0 <= j < n ==> s[j] != '\n',
    ensures
        lines_of(s) == seq![chomped(s.take(n as int))] + lines_of(s.skip(n as int + 1)),
{
    lemma_next_is(s, '\n', 0, n);
    lemma_lines_from(s, n + 1);
    assert(s.subrange(0, n as int) == s.take(n as int));
}

proof fn lemma_one_line(s: Seq<char>)
    requires
        s.len() > 0,
        forall|j: int| 0 <= j < s.len() ==> s[j] != '\n',
    ensures
        lines_of(s) == seq![s],
{
    lemma_next_is(s, '\n', 0, s.len());
    assert(s.subrange(0, s.len() as int) == s);
}

proof fn lemma_with_returns_join(a: Seq<char>, b: Seq<char>)
    ensures
        with_returns(a + b) == with_returns(a) + with_returns(b),
    decreases b.len(),
{
    if b.len() == 0 {
        assert(a + b == a);
        assert(with_returns(a) + with_returns(b) == with_returns(a));
    } else {
        assert((a + b).drop_last() == a + b.drop_last());
        lemma_with_returns_join(a, b.drop_last());
        assert(with_returns(a + b) == with_returns(a) + with_returns(b));
    }
}

proof fn lemma_with_returns_plain(a: Seq<char>)
    requires
        forall|j: int| 0 <= j < a.len() ==> a[j] != '\n',
    ensures
        with_returns(a) == a,
    decreases a.len(),
{
    if a.len() > 0 {
        lemma_with_returns_plain(a.drop_last());
        assert(with_returns(a) == a.drop_last().push(a.last()));
    }
}

/// A text with carriage returns before its line feeds has the lines of the text
/// without them.
pub proof fn law_returns_change_no_line(s: Seq<char>)
    requires
        forall|j: int| 0 <= j < s.len() ==> #[trigger] s[j] != '\r',
    ensures
        lines_of(with_returns(s)) == lines_of(s),
    decreases s.len(),
{
    lemma_next_at(s, '\n', 0);
    let n = next_at(s, '\n', 0);
    if n >= s.len() {
        lemma_with_returns_plain(s);
    } else {
        let first = s.take(n as int);
        let rest = s.skip(n as int + 1);
        let end = seq!['\n'];
        assert(s == first + end + rest);
        lemma_with_returns_join(first + end, rest);
        lemma_with_returns_join(first, end);
        lemma_with_returns_plain(first);
        assert(end.drop_last() == Seq::<char>::empty());
        assert(with_returns(end.drop_last()) == Seq::<char>::empty());
        assert(end.last() == '\n');
        assert(with_returns(end) == with_returns(end.drop_last()) + seq!['\r', '\n']);
        assert(with_returns(end) == seq!['\r', '\n']);
        let w = with_returns(s);
        assert(w == first + seq!['\r', '\n'] + with_returns(rest));
        assert(w.take(n as int + 1) == first.push('\r'));
        assert(first.push('\r').drop_last() == first);
        assert(w.skip(n as int + 2) == with_returns(rest));
        assert forall|j: int| 0 <= j < n + 1 implies w[j] != '\n' by {
            if j < n {
                assert(w[j] == s[j]);
            }
        }
        assert(w[n as int + 1] == '\n');
        lemma_first_line(w, n + 1);
        lemma_first_line(s, n);
        assert forall|j: int| 0 <= j < rest.len() implies #[trigger] rest[j] != '\r' by {
            assert(s[n + 1 + j] != '\r');
        }
        law_returns_change_no_line(rest);
        if n > 0 {
            assert(first.last() == s[n - 1]);
        }
    }
}

/// A line feed after the last line of a text makes no line more.
pub proof fn law_a_final_line_feed_makes_no_line(s: Seq<char>)
    requires
        s.len() > 0,
        s.last() != '\n',
        s.last() != '\r',
    ensures
        lines_of(s.push('\n')) == lines_of(s),
    decreases s.len(),
{
    lemma_next_at(s, '\n', 0);
    let n = next_at(s, '\n', 0);
    let more = s.push('\n');
    if n >= s.len() {
        lemma_one_line(s);
        lemma_first_line(more, s.len());
        assert(more.take(s.len() as int) == s);
        assert(more.skip(s.len() as int + 1) == Seq::<char>::empty());
        assert(lines_of(Seq::<char>::empty()) == Seq::<Seq<char>>::empty());
    } else {
        let rest = s.skip(n as int + 1);
        assert(s[s.len() - 1] == s.last());
        assert(rest.len() > 0 && rest.last() == s.last());
        law_a_final_line_feed_makes_no_line(rest);
        lemma_first_line(s, n);
        lemma_first_line(more, n);
        assert(more.take(n as int) == s.take(n as int));
        assert(more.skip(n as int + 1) == rest.push('\n'));
    }
}

/// The lines of `s`, with no line endings.
pub fn lines(s: &str) -> (r: Vec<String>)
    ensures
        views(r@) == lines_of(s@),
{
    let text = chars(s);
    let mut out: Vec<String> = Vec::new();
    let mut i: usize = 0;
    while i < text.len()
        invariant
            text@ == s@,
            i <= text@.len(),
            lines_of(s@) == views(out@) + lines_from(s@, i as nat),
        decreases text@.len() - i,
    {
        let n: usize = find(&text, '\n', i);
        let ghost before = out@;
        if n == text.len() {
            out.push(piece(&text, i, n));
            assert(views(out@) == views(before) + lines_from(s@, i as nat));
            return out;
        }
        let end: usize = if n > i && text[n - 1] == '\r' {
            n - 1
        } else {
            n
        };
        out.push(piece(&text, i, end));
        assert(chomped(s@.subrange(i as int, n as int)) == s@.subrange(i as int, end as int));
        assert(views(out@) == views(before).push(s@.subrange(i as int, end as int)));
        assert(views(out@) + lines_from(s@, n as nat + 1) == views(before) + lines_from(
            s@,
            i as nat,
        ));
        i = n + 1;
    }
    assert(lines_of(s@) == views(out@));
    out
}

/// The value of a decimal digit.
pub open spec fn digit_value(c: char) -> nat {
    (c as u32 - '0' as u32) as nat
}

/// True for a decimal digit.
pub open spec fn is_digit(c: char) -> bool {
    '0' <= c <= '9'
}

/// The number that a sequence of digits spells.
pub open spec fn number_of(s: Seq<char>) -> nat
    decreases s.len(),
{
    if s.len() == 0 {
        0
    } else {
        number_of(s.drop_last()) * 10 + digit_value(s.last())
    }
}

/// The digits of a number in text: all of it, or all of it but for a first
/// `+`.
pub open spec fn unsigned_digits(s: Seq<char>) -> Seq<char> {
    if s.len() > 0 && s[0] == '+' {
        s.skip(1)
    } else {
        s
    }
}

/// True when the text is an unsigned decimal number that is not above `max`.
pub open spec fn is_number(s: Seq<char>, max: nat) -> bool {
    let d = unsigned_digits(s);
    &&& d.len() > 0
    &&& forall|i: int| 0 <= i < d.len() ==> is_digit(#[trigger] d[i])
    &&& number_of(d) <= max
}

/// The number that the text gives, where it is a number not above `max`.
pub open spec fn parsed(s: Seq<char>, max: nat) -> Option<nat> {
    if is_number(s, max) {
        Some(number_of(unsigned_digits(s)))
    } else {
        None
    }
}

proof fn lemma_number_grows(s: Seq<char>, n: int)
    requires
        0 <= n <= s.len(),
        forall|i: int| 0 <= i < s.len() ==> is_digit(#[trigger] s[i]),
    ensures
        number_of(s.take(n)) <= number_of(s),
    decreases s.len(),
{
    if n == s.len() {
        assert(s.take(n) == s);
    } else {
        assert(s.drop_last().take(n) == s.take(n));
        assert forall|i: int| 0 <= i < s.drop_last().len() implies is_digit(
            #[trigger] s.drop_last()[i],
        ) by {
            assert(s.drop_last()[i] == s[i]);
        }
        lemma_number_grows(s.drop_last(), n);
    }
}

/// Reads an unsigned decimal number that is not above `max`.
pub fn parse_number(s: &str, max: u64) -> (r: Option<u64>)
    ensures
        match r {
            Some(n) => parsed(s@, max as nat) == Some(n as nat),
            None => parsed(s@, max as nat) is None,
        },
{
    let c = chars(s);
    let start: usize = if c.len() > 0 && c[0] == '+' {
        1
    } else {
        0
    };
    let ghost d = unsigned_digits(s@);
    assert(d == s@.subrange(start as int, s@.len() as int));
    if start == c.len() {
        return None;
    }
    let mut value: u64 = 0;
    let mut i: usize = start;
    while i < c.len()
        invariant
            c@ == s@,
            start <= i <= c@.len(),
            d == s@.subrange(start as int, s@.len() as int),
            d == unsigned_digits(s@),
            start < c@.len(),
            forall|j: int| 0 <= j < i - start ==> is_digit(#[trigger] d[j]),
            value == number_of(d.take(i - start)),
            value <= max,
        decreases c@.len() - i,
    {
        let x: char = c[i];
        assert(d[i - start] == x);
        if !('0' <= x && x <= '9') {
            assert(!is_digit(d[i - start]));
            return None;
        }
        assert(d.take(i + 1 - start).drop_last() == d.take(i - start));
        let v: u64 = (x as u32 - '0' as u32) as u64;
        assert(number_of(d.take(i + 1 - start)) == value * 10 + v);
        if value > max / 10 || v > max || value * 10 > max - v {
            proof {
                if is_number(s@, max as nat) {
                    lemma_number_grows(d, i + 1 - start);
                }
            }
            return None;
        }
        value = value * 10 + v;
        i += 1;
    }
    assert(d.take(d.len() as int) == d);
    Some(value)
}

/// True when `a` stands before `b` in the order of the characters, one after
/// the other.
pub open spec fn before(a: Seq<char>, b: Seq<char>) -> bool
    decreases a.len(),
{
    if b.len() == 0 {
        false
    } else if a.len() == 0 {
        true
    } else if a[0] == b[0] {
        before(a.skip(1), b.skip(1))
    } else {
        a[0] < b[0]
    }
}

/// Two texts are in order one way, or the other way, or they are equal.
pub proof fn lemma_before_total(a: Seq<char>, b: Seq<char>)
    ensures
        before(a, b) || before(b, a) || a == b,
        !(before(a, b) && before(b, a)),
        !before(a, a),
    decreases a.len(),
{
    if a.len() > 0 && b.len() > 0 && a[0] == b[0] {
        lemma_before_total(a.skip(1), b.skip(1));
        if a.skip(1) == b.skip(1) {
            assert(a == seq![a[0]] + a.skip(1));
            assert(b == seq![b[0]] + b.skip(1));
        }
    }
    if a.len() > 0 {
        lemma_before_total(a.skip(1), a.skip(1));
    }
    if a.len() == 0 && b.len() == 0 {
        assert(a == b);
    }
}

pub proof fn lemma_before_chain(a: Seq<char>, b: Seq<char>, c: Seq<char>)
    requires
        before(a, b),
        before(b, c),
    ensures
        before(a, c),
    decreases a.len(),
{
    if a.len() > 0 && a[0] == b[0] && b[0] == c[0] {
        lemma_before_chain(a.skip(1), b.skip(1), c.skip(1));
    }
}

/// True when `a` stands before `b` in the order of the characters.
pub fn is_before(a: &str, b: &str) -> (r: bool)
    ensures
        r == before(a@, b@),
{
    let x = chars(a);
    let y = chars(b);
    let mut i: usize = 0;
    assert(x@.skip(0) == x@ && y@.skip(0) == y@);
    loop
        invariant
            i <= x@.len(),
            i <= y@.len(),
            before(a@, b@) == before(x@.skip(i as int), y@.skip(i as int)),
        decreases x@.len() - i,
    {
        if i == y.len() {
            return false;
        }
        if i == x.len() {
            return true;
        }
        let c: char = x[i];
        let d: char = y[i];
        assert(x@.skip(i as int)[0] == c && y@.skip(i as int)[0] == d);
        if c != d {
            return c < d;
        }
        assert(x@.skip(i as int).skip(1) == x@.skip(i + 1));
        assert(y@.skip(i as int).skip(1) == y@.skip(i + 1));
        i += 1;
    }
}

/// The ASCII letters and digits.
pub open spec fn alnum(c: char) -> bool {
    'a' <= c <= 'z' || 'A' <= c <= 'Z' || '0' <= c <= '9'
}

/// True for an ASCII letter or digit.
pub fn is_alnum(c: char) -> (r: bool)
    ensures
        r == alnum(c),
{
    ('a' <= c && c <= 'z') || ('A' <= c && c <= 'Z') || ('0' <= c && c <= '9')
}

// ---------------------------------------------------------------------------
// What these functions promise.
// ---------------------------------------------------------------------------

proof fn lemma_parts_from(s: Seq<char>, c: char, i: nat)
    requires
        i <= s.len(),
    ensures
        parts_from(s, c, i) == parts(s.skip(i as int), c),
    decreases s.len() - i,
{
    let rest = s.skip(i as int);
    lemma_next_at(s, c, i);
    let n = next_at(s, c, i);
    lemma_next_is(rest, c, 0, (n - i) as nat);
    if n >= s.len() {
        assert(s.subrange(i as int, s.len() as int) == rest.subrange(0, rest.len() as int));
    } else {
        lemma_parts_from(s, c, n + 1);
        lemma_parts_from(rest, c, (n - i + 1) as nat);
        assert(rest.skip(n - i + 1) == s.skip(n as int + 1));
        assert(s.subrange(i as int, n as int) == rest.subrange(0, n - i));
    }
}

/// A text without the character is one part.
pub proof fn lemma_one_part(s: Seq<char>, c: char)
    requires
        forall|j: int| 0 <= j < s.len() ==> #[trigger] s[j] != c,
    ensures
        parts(s, c) == seq![s],
{
    lemma_next_is(s, c, 0, s.len());
    assert(s.subrange(0, s.len() as int) == s);
}

/// The first part, and the parts of what follows the character behind it.
pub proof fn lemma_first_part(a: Seq<char>, b: Seq<char>, c: char)
    requires
        forall|j: int| 0 <= j < a.len() ==> #[trigger] a[j] != c,
    ensures
        parts(a.push(c) + b, c) == seq![a] + parts(b, c),
{
    let s = a.push(c) + b;
    let n = a.len();
    assert(s[n as int] == c);
    assert forall|j: int| 0 <= j < n implies s[j] != c by {
        assert(s[j] == a[j]);
    }
    lemma_next_is(s, c, 0, n);
    lemma_parts_from(s, c, n + 1);
    assert(s.subrange(0, n as int) == a);
    assert(s.skip(n as int + 1) == b);
}

/// The parts of a text, with the character between each two of them, are the
/// text again, and no part holds the character.
pub proof fn law_the_parts_make_the_text(s: Seq<char>, c: char)
    ensures
        parts(s, c).len() > 0,
        glued(parts(s, c), c) == s,
        forall|k: int, j: int|
            0 <= k < parts(s, c).len() && 0 <= j < parts(s, c)[k].len() ==> #[trigger] parts(
                s,
                c,
            )[k][j] != c,
    decreases s.len(),
{
    lemma_next_at(s, c, 0);
    let n = next_at(s, c, 0);
    let all = parts(s, c);
    if n >= s.len() {
        lemma_one_part(s, c);
        assert(all.skip(1) == Seq::<Seq<char>>::empty());
    } else {
        let a = s.take(n as int);
        let b = s.skip(n as int + 1);
        assert(s == a.push(c) + b);
        lemma_first_part(a, b, c);
        law_the_parts_make_the_text(b, c);
        assert(all.skip(1) == parts(b, c));
        assert(all[0] == a);
        assert forall|k: int, j: int| 0 <= k < all.len() && 0 <= j < all[k].len() implies #[trigger] all[k][j]
            != c by {
            if k > 0 {
                assert(all[k] == parts(b, c)[k - 1]);
                assert(parts(b, c)[k - 1][j] != c);
            }
        }
    }
}

/// The texts of a list, with the character between each two of them.
pub open spec fn glued(list: Seq<Seq<char>>, c: char) -> Seq<char>
    decreases list.len(),
{
    if list.len() == 0 {
        Seq::empty()
    } else if list.len() == 1 {
        list[0]
    } else {
        list[0].push(c) + glued(list.skip(1), c)
    }
}

/// What is cut from the ends of a text is white, and what stays begins and ends
/// with a character that is not white.
pub proof fn law_only_white_ends_go(s: Seq<char>)
    ensures
        exists|i: int, j: int|
            0 <= i <= j <= s.len() && trimmed(s) == #[trigger] s.subrange(i, j) && (forall|k: int|
                0 <= k < i || j <= k < s.len() ==> white(#[trigger] s[k])),
        trimmed(s).len() > 0 ==> !white(trimmed(s)[0]) && !white(trimmed(s).last()),
{
    lemma_lead_is(s);
    lemma_last_is(s);
    let i = lead(s) as int;
    if i >= s.len() {
        assert(s.subrange(0, 0) == trimmed(s));
        assert(forall|k: int| 0 <= k < s.len() ==> white(#[trigger] s[k]));
    } else {
        let j = last_solid(s) as int;
        assert(i < j) by {
            if j <= i {
                assert(white(s[i]));
            }
        }
        assert(s.subrange(i, j) == trimmed(s));
        assert(trimmed(s)[0] == s[i]);
        assert(trimmed(s).last() == s[j - 1]);
    }
}

proof fn lemma_lead_is(s: Seq<char>)
    ensures
        lead(s) <= s.len(),
        forall|k: int| 0 <= k < lead(s) ==> white(#[trigger] s[k]),
        lead(s) < s.len() ==> !white(s[lead(s) as int]),
    decreases s.len(),
{
    if s.len() > 0 && white(s[0]) {
        lemma_lead_is(s.skip(1));
        assert forall|k: int| 0 <= k < lead(s) implies white(#[trigger] s[k]) by {
            if k > 0 {
                assert(s.skip(1)[k - 1] == s[k]);
            }
        }
        if lead(s) < s.len() {
            assert(s.skip(1)[lead(s.skip(1)) as int] == s[lead(s) as int]);
        }
    }
}

proof fn lemma_last_is(s: Seq<char>)
    ensures
        last_solid(s) <= s.len(),
        forall|k: int| last_solid(s) <= k < s.len() ==> white(#[trigger] s[k]),
        last_solid(s) > 0 ==> !white(s[last_solid(s) - 1]),
    decreases s.len(),
{
    if s.len() > 0 && white(s.last()) {
        lemma_last_is(s.drop_last());
        assert forall|k: int| last_solid(s) <= k < s.len() implies white(#[trigger] s[k]) by {
            if k < s.len() - 1 {
                assert(s.drop_last()[k] == s[k]);
            }
        }
    }
}

/// The digits of a number give the number again, where the limit lets it
/// through, and no text gives a number above the limit.
pub proof fn law_a_number_is_read_as_it_is_written(n: nat, max: nat)
    ensures
        n <= max ==> parsed(digits(n), max) == Some(n),
        n > max ==> parsed(digits(n), max) is None,
        parsed(seq!['+'] + digits(n), max) == parsed(digits(n), max),
{
    lemma_digits_spell(n);
    let d = digits(n);
    assert(d[0] != '+');
    let p = seq!['+'] + d;
    assert(p.skip(1) == d);
    assert(p[0] == '+');
}

proof fn lemma_digits_spell(n: nat)
    ensures
        digits(n).len() > 0,
        forall|k: int| 0 <= k < digits(n).len() ==> is_digit(#[trigger] digits(n)[k]),
        number_of(digits(n)) == n,
    decreases n,
{
    if n >= 10 {
        lemma_digits_spell(n / 10);
        assert(digits(n).drop_last() == digits(n / 10));
    } else {
        assert(digits(n).drop_last() == Seq::<char>::empty());
        assert(number_of(Seq::<char>::empty()) == 0);
        assert(digits(n).last() == digit(n));
    }
}

/// A text that is no row of decimal digits, with a `+` before it or not, is no
/// number.
pub proof fn law_only_digits_make_a_number(s: Seq<char>, max: nat, k: int)
    requires
        0 <= k < s.len(),
        !('0' <= s[k] <= '9'),
        s[k] != '+' || k > 0,
    ensures
        parsed(s, max) is None,
{
    if s[0] == '+' {
        assert(s.skip(1)[k - 1] == s[k]);
    }
}

/// Lines without the ends: where a text has no carriage return, its lines with
/// `\n` behind each of them are the text, but for one `\n` that may be missing at
/// the end.
pub proof fn law_the_lines_make_the_text(s: Seq<char>)
    requires
        forall|j: int| 0 <= j < s.len() ==> #[trigger] s[j] != '\r',
    ensures
        ended(lines_of(s)) == if s.len() > 0 && s.last() != '\n' {
            s.push('\n')
        } else {
            s
        },
        forall|k: int, j: int|
            0 <= k < lines_of(s).len() && 0 <= j < lines_of(s)[k].len() ==> #[trigger] lines_of(
                s,
            )[k][j] != '\n',
    decreases s.len(),
{
    lemma_next_at(s, '\n', 0);
    let n = next_at(s, '\n', 0);
    let all = lines_of(s);
    if s.len() == 0 {
    } else if n >= s.len() {
        lemma_one_line(s);
        assert(all.skip(1) == Seq::<Seq<char>>::empty());
        assert(ended(all.skip(1)) == Seq::<char>::empty());
        assert(s[s.len() - 1] == s.last());
        assert(ended(all) == s.push('\n'));
    } else {
        lemma_first_line(s, n);
        let a = s.take(n as int);
        let b = s.skip(n as int + 1);
        assert forall|j: int| 0 <= j < b.len() implies #[trigger] b[j] != '\r' by {
            assert(s[n + 1 + j] != '\r');
        }
        law_the_lines_make_the_text(b);
        if n > 0 {
            assert(a.last() == s[n - 1]);
        }
        assert(chomped(a) == a);
        assert(all[0] == a);
        assert(all.skip(1) == lines_of(b));
        assert(s == a.push('\n') + b);
        if b.len() > 0 {
            assert(b.last() == s.last());
            assert(s.push('\n') == a.push('\n') + b.push('\n'));
        }
        assert forall|k: int, j: int| 0 <= k < all.len() && 0 <= j < all[k].len() implies #[trigger] all[k][j]
            != '\n' by {
            if k > 0 {
                assert(all[k] == lines_of(b)[k - 1]);
                assert(lines_of(b)[k - 1][j] != '\n');
            }
        }
    }
}

/// The texts of a list, each with a line feed behind it.
pub open spec fn ended(list: Seq<Seq<char>>) -> Seq<char>
    decreases list.len(),
{
    if list.len() == 0 {
        Seq::empty()
    } else {
        list[0].push('\n') + ended(list.skip(1))
    }
}

/// The order of two texts is decided by the first place where they differ, and
/// where there is none, the shorter text comes first.
pub proof fn law_the_first_difference_decides(a: Seq<char>, b: Seq<char>, n: int)
    requires
        0 <= n <= a.len(),
        n <= b.len(),
        a.take(n) == b.take(n),
        n == a.len() || n == b.len() || a[n] != b[n],
    ensures
        before(a, b) <==> n < b.len() && (n == a.len() || a[n] < b[n]),
    decreases n,
{
    if n > 0 {
        assert(a[0] == a.take(n)[0]);
        assert(b[0] == b.take(n)[0]);
        let x = a.skip(1);
        let y = b.skip(1);
        assert(x.take(n - 1) == y.take(n - 1)) by {
            assert forall|k: int| 0 <= k < n - 1 implies x[k] == y[k] by {
                assert(a.take(n)[k + 1] == a[k + 1]);
                assert(b.take(n)[k + 1] == b[k + 1]);
            }
        }
        law_the_first_difference_decides(x, y, n - 1);
    }
}

/// One more line at the end of whole lines is one more line of the text, with or
/// without a carriage return before its line feed, and also with no line feed at
/// all.
pub proof fn law_one_more_line(s: Seq<char>, line: Seq<char>)
    requires
        s.len() == 0 || s.last() == '\n',
        forall|j: int| 0 <= j < line.len() ==> #[trigger] line[j] != '\n' && line[j] != '\r',
    ensures
        lines_of(s + line.push('\n')) == lines_of(s).push(line),
        lines_of(s + line + seq!['\r', '\n']) == lines_of(s).push(line),
        line.len() > 0 ==> lines_of(s + line) == lines_of(s).push(line),
    decreases s.len(),
{
    if s.len() == 0 {
        lemma_last_line(line);
        assert(s + line.push('\n') == line.push('\n'));
        assert(s + line + seq!['\r', '\n'] == line + seq!['\r', '\n']);
        assert(s + line == line);
        assert(lines_of(s).push(line) == seq![line]);
    } else {
        lemma_next_at(s, '\n', 0);
        let n = next_at(s, '\n', 0);
        assert(s[s.len() - 1] == '\n');
        assert(n < s.len());
        let b = s.skip(n as int + 1);
        if b.len() > 0 {
            assert(b.last() == s.last());
        }
        law_one_more_line(b, line);
        lemma_first_line(s, n);
        let first = seq![chomped(s.take(n as int))];
        assert(first + lines_of(b).push(line) == (first + lines_of(b)).push(line));
        lemma_same_first_line(s, n, line.push('\n'));
        lemma_same_first_line(s, n, line + seq!['\r', '\n']);
        lemma_same_first_line(s, n, line);
        assert(b + line + seq!['\r', '\n'] == b + (line + seq!['\r', '\n']));
        assert(s + line + seq!['\r', '\n'] == s + (line + seq!['\r', '\n']));
    }
}

proof fn lemma_same_first_line(s: Seq<char>, n: nat, more: Seq<char>)
    requires
        n < s.len(),
        s[n as int] == '\n',
        forall|j: int| 0 <= j < n ==> s[j] != '\n',
    ensures
        lines_of(s + more) == seq![chomped(s.take(n as int))] + lines_of(
            s.skip(n as int + 1) + more,
        ),
{
    let t = s + more;
    assert forall|j: int| 0 <= j < n implies t[j] != '\n' by {
        assert(t[j] == s[j]);
    }
    lemma_first_line(t, n);
    assert(t.take(n as int) == s.take(n as int));
    assert(t.skip(n as int + 1) == s.skip(n as int + 1) + more);
}

proof fn lemma_last_line(line: Seq<char>)
    requires
        forall|j: int| 0 <= j < line.len() ==> #[trigger] line[j] != '\n' && line[j] != '\r',
    ensures
        lines_of(line.push('\n')) == seq![line],
        lines_of(line + seq!['\r', '\n']) == seq![line],
        line.len() > 0 ==> lines_of(line) == seq![line],
{
    let a = line.push('\n');
    assert forall|j: int| 0 <= j < line.len() implies a[j] != '\n' by {
        assert(a[j] == line[j]);
    }
    lemma_first_line(a, line.len());
    assert(a.take(line.len() as int) == line);
    assert(a.skip(line.len() as int + 1) == Seq::<char>::empty());
    if line.len() > 0 {
        assert(line.last() == line[line.len() - 1]);
        lemma_one_line(line);
    }
    let b = line + seq!['\r', '\n'];
    let n = line.len() + 1;
    assert forall|j: int| 0 <= j < n implies b[j] != '\n' by {
        if j < line.len() {
            assert(b[j] == line[j]);
        }
    }
    lemma_first_line(b, n);
    assert(b.take(n as int) == line.push('\r'));
    assert(chomped(line.push('\r')) == line);
    assert(b.skip(n as int + 1) == Seq::<char>::empty());
    assert(seq![line] + lines_of(Seq::<char>::empty()) == seq![line]);
}

/// In ASCII the white space is the space, the tab and the ends of lines and
/// pages, and every other ASCII character is solid.
pub proof fn law_the_white_space_of_ascii(c: char)
    requires
        c <= '\u{7f}',
    ensures
        white(c) <==> c == ' ' || c == '\t' || c == '\n' || c == '\r' || c == '\u{b}' || c
            == '\u{c}',
{
}

/// A letter made small and made capital again is the capital letter, and no
/// character but an ASCII letter changes.
pub proof fn law_only_ascii_letters_change(s: Seq<char>, k: int)
    requires
        0 <= k < s.len(),
    ensures
        lowered(s).len() == s.len() && raised(s).len() == s.len(),
        'A' <= s[k] <= 'Z' ==> lowered(s)[k] as int == s[k] as int + 32,
        !('A' <= s[k] <= 'Z') ==> lowered(s)[k] == s[k],
        'a' <= s[k] <= 'z' ==> raised(s)[k] as int == s[k] as int - 32,
        !('a' <= s[k] <= 'z') ==> raised(s)[k] == s[k],
{
}

/// The parts on both sides of one of the characters are the parts of the whole
/// text.
pub proof fn law_parts_join(a: Seq<char>, b: Seq<char>, c: char)
    ensures
        parts(a.push(c) + b, c) == parts(a, c) + parts(b, c),
    decreases a.len(),
{
    lemma_next_at(a, c, 0);
    let n = next_at(a, c, 0);
    if n >= a.len() {
        lemma_one_part(a, c);
        lemma_first_part(a, b, c);
    } else {
        let x = a.take(n as int);
        let y = a.skip(n as int + 1);
        assert(a == x.push(c) + y);
        lemma_first_part(x, y, c);
        law_parts_join(y, b, c);
        assert(a.push(c) + b == x.push(c) + (y.push(c) + b));
        lemma_first_part(x, y.push(c) + b, c);
        assert(seq![x] + (parts(y, c) + parts(b, c)) == seq![x] + parts(y, c) + parts(b, c));
    }
}

/// One more text at the end of a list stands at the end of their lines.
pub proof fn lemma_ended_push(list: Seq<Seq<char>>, last: Seq<char>)
    ensures
        ended(list.push(last)) == ended(list) + last.push('\n'),
    decreases list.len(),
{
    if list.len() == 0 {
        assert(list.push(last).skip(1) == Seq::<Seq<char>>::empty());
        assert(ended(list) + last.push('\n') == last.push('\n') + ended(
            Seq::<Seq<char>>::empty(),
        ));
    } else {
        let rest = list.skip(1);
        lemma_ended_push(rest, last);
        assert(list.push(last).skip(1) == rest.push(last));
        assert(list[0].push('\n') + (ended(rest) + last.push('\n')) == list[0].push('\n') + ended(
            rest,
        ) + last.push('\n'));
    }
}

/// A text with no place for a replacement stays as it is. The first place is
/// replaced, and what stands behind it is read on in the same way.
pub proof fn law_what_is_replaced(a: Seq<char>, from: Seq<char>, to: Seq<char>, b: Seq<char>)
    requires
        from.len() > 0,
        forall|at: int| 0 <= at < a.len() ==> !#[trigger] stands_at(a + from + b, from, at),
    ensures
        replaced(a + from + b, from, to, 0) == a + to + replaced(b, from, to, 0),
{
    let s = a + from + b;
    lemma_replaced_start(s, from, to, 0, a.len());
    assert(s.subrange(0, a.len() as int) == a);
    assert(s.subrange(a.len() as int, a.len() as int + from.len()) == from);
    assert(stands_at(s, from, a.len() as int));
    assert(s.skip(a.len() as int + from.len()) == b);
    lemma_replaced_shift(s, from, to, a.len() + from.len(), b, 0);
    assert(a + (to + replaced(b, from, to, 0)) == a + to + replaced(b, from, to, 0));
}

/// A text in which the searched text does not stand stays as it is.
pub proof fn law_nothing_else_is_replaced(s: Seq<char>, from: Seq<char>, to: Seq<char>)
    requires
        from.len() > 0,
        !holds(s, from),
    ensures
        replaced(s, from, to, 0) == s,
{
    lemma_replaced_start(s, from, to, 0, s.len());
    assert(replaced(s, from, to, s.len()) == Seq::<char>::empty());
    assert(s.subrange(0, s.len() as int) + Seq::<char>::empty() == s);
}

proof fn lemma_replaced_start(s: Seq<char>, from: Seq<char>, to: Seq<char>, i: nat, n: nat)
    requires
        from.len() > 0,
        i <= n <= s.len(),
        forall|at: int| i <= at < n ==> !#[trigger] stands_at(s, from, at),
    ensures
        replaced(s, from, to, i) == s.subrange(i as int, n as int) + replaced(s, from, to, n),
    decreases n - i,
{
    if i < n {
        lemma_replaced_start(s, from, to, i + 1, n);
        assert(!stands_at(s, from, i as int));
        assert(s.subrange(i as int, n as int) == seq![s[i as int]] + s.subrange(
            i as int + 1,
            n as int,
        ));
        assert(seq![s[i as int]] + (s.subrange(i as int + 1, n as int) + replaced(s, from, to, n))
            == seq![s[i as int]] + s.subrange(i as int + 1, n as int) + replaced(s, from, to, n));
    } else {
        assert(s.subrange(i as int, n as int) + replaced(s, from, to, n) == replaced(
            s,
            from,
            to,
            n,
        ));
    }
}

proof fn lemma_replaced_shift(
    s: Seq<char>,
    from: Seq<char>,
    to: Seq<char>,
    i: nat,
    rest: Seq<char>,
    k: nat,
)
    requires
        from.len() > 0,
        i <= s.len(),
        s.skip(i as int) == rest,
    ensures
        replaced(s, from, to, i + k) == replaced(rest, from, to, k),
    decreases rest.len() - k,
{
    if k < rest.len() {
        assert(rest[k as int] == s[i + k as int]);
        if i + k + from.len() <= s.len() {
            assert(s.subrange(i + k as int, i + k as int + from.len()) == rest.subrange(
                k as int,
                k + from.len() as int,
            ));
        }
        assert(stands_at(s, from, i + k as int) == stands_at(rest, from, k as int));
        if stands_at(rest, from, k as int) {
            lemma_replaced_shift(s, from, to, i, rest, k + from.len());
        } else {
            lemma_replaced_shift(s, from, to, i, rest, k + 1);
        }
    }
}

/// Beyond ASCII the white space is that of Unicode.
pub proof fn law_the_white_space_beyond_ascii(c: char)
    requires
        c > '\u{7f}',
    ensures
        white(c) <==> {
            let n = c as int;
            n == 133 || n == 160 || n == 5760 || 8192 <= n <= 8202 || n == 8232 || n == 8233 || n
                == 8239 || n == 8287 || n == 12288
        },
{
}

/// A filled text has the width at least, ends with the text, and has nothing but
/// the fill before it.
pub proof fn law_what_is_filled(s: &str, fill: char, width: usize, r: String, k: int)
    requires
        call_ensures(pad_left, (s, fill, width), r),
    ensures
        r@.len() == if s@.len() < width {
            width as int
        } else {
            s@.len() as int
        },
        r@.skip(r@.len() - s@.len()) == s@,
        0 <= k < r@.len() - s@.len() ==> r@[k] == fill,
{
    assert(r@.skip(r@.len() - s@.len()) == s@);
}

/// Joined texts stand one behind the other with the separator between them.
pub proof fn law_what_is_joined(list: Seq<Seq<char>>, last: Seq<char>, sep: Seq<char>)
    ensures
        joined(Seq::empty(), sep).len() == 0,
        joined(seq![last], sep) == last,
        list.len() > 0 ==> joined(list.push(last), sep) == joined(list, sep) + sep + last,
{
    assert(list.push(last).drop_last() == list);
    assert(list.push(last).last() == last);
}

/// What is cut from a text is white, and what stays has solid ends.
pub proof fn law_what_is_trimmed(s: &str, r: String)
    requires
        call_ensures(trim, (s,), r),
    ensures
        exists|i: int, j: int|
            0 <= i <= j <= s@.len() && r@ == #[trigger] s@.subrange(i, j) && (forall|k: int|
                0 <= k < i || j <= k < s@.len() ==> white(#[trigger] s@[k])),
        r@.len() > 0 ==> !white(r@[0]) && !white(r@.last()),
{
    law_only_white_ends_go(s@);
}

/// The lines of a text with no carriage return are the text again, with a line
/// feed behind each of them, and no line holds one.
pub proof fn law_what_the_lines_are(s: &str, r: Vec<String>, k: int, j: int)
    requires
        call_ensures(lines, (s,), r),
        forall|i: int| 0 <= i < s@.len() ==> #[trigger] s@[i] != '\r',
        0 <= k < r@.len(),
        0 <= j < r@[k]@.len(),
    ensures
        r@[k]@[j] != '\n',
        ended(views(r@)) == if s@.last() != '\n' {
            s@.push('\n')
        } else {
            s@
        },
{
    law_the_lines_make_the_text(s@);
    let all = lines_of(s@);
    assert(all[k] == r@[k]@);
    assert(all[k][j] != '\n');
}

/// A number is read as it is written, and a number above the limit is not read.
pub proof fn law_numbers_go_round(n: u64, max: u64, text: String, again: &str, r: Option<u64>)
    requires
        call_ensures(decimal, (n,), text),
        again@ == text@,
        call_ensures(parse_number, (again, max), r),
    ensures
        n <= max ==> r == Some(n),
        n > max ==> r is None,
{
    law_a_number_is_read_as_it_is_written(n as nat, max as nat);
}

/// Only an ASCII letter changes its case, and it changes to the same letter.
pub proof fn law_what_changes_its_case(s: &str, low: String, high: String, k: int)
    requires
        call_ensures(lower, (s,), low),
        call_ensures(upper, (s,), high),
        0 <= k < s@.len(),
    ensures
        low@.len() == s@.len() && high@.len() == s@.len(),
        'A' <= s@[k] <= 'Z' ==> low@[k] as int == s@[k] as int + 32 && high@[k] == s@[k],
        'a' <= s@[k] <= 'z' ==> high@[k] as int == s@[k] as int - 32 && low@[k] == s@[k],
        !('A' <= s@[k] <= 'Z') && !('a' <= s@[k] <= 'z') ==> low@[k] == s@[k] && high@[k] == s@[k],
{
    law_only_ascii_letters_change(s@, k);
}

/// A text begins and ends with what stands there.
pub proof fn law_what_stands_at_the_ends(a: Seq<char>, b: Seq<char>, s: &str, start: &str, end: &str, x: bool, y: bool)
    requires
        s@ == a + b,
        start@ == a,
        end@ == b,
        call_ensures(starts_with, (s, start), x),
        call_ensures(ends_with, (s, end), y),
    ensures
        x && y,
{
    assert(s@.subrange(0, a.len() as int) == a);
    assert(s@.subrange(s@.len() - b.len(), s@.len() as int) == b);
}

/// The ASCII letters and digits by their numbers.
pub proof fn law_the_letters_and_digits(c: char, r: bool)
    requires
        call_ensures(is_alnum, (c,), r),
    ensures
        r <==> 48 <= c as int <= 57 || 65 <= c as int <= 90 || 97 <= c as int <= 122,
{
}

/// The control characters by their numbers: those below the space, and those from
/// the delete character up to the end of the second block.
pub proof fn law_the_control_characters(c: char, r: bool)
    requires
        call_ensures(is_control, (c,), r),
    ensures
        r <==> (c as int) < 32 || 127 <= c as int <= 159,
{
}

/// No text and a lone `+` give no number. A `+` before a text that has none
/// changes nothing.
pub proof fn law_what_a_sign_does(s: &str, max: u64, r: Option<u64>, more: &str, again: Option<u64>)
    requires
        call_ensures(parse_number, (s, max), r),
        call_ensures(parse_number, (more, max), again),
        more@ == seq!['+'] + s@,
    ensures
        s@.len() == 0 ==> r is None && again is None,
        s@.len() > 0 && s@[0] != '+' ==> again == r,
        s@.len() > 0 && s@[0] == '+' ==> again is None,
{
    assert(more@.skip(1) == s@);
    assert(unsigned_digits(more@) == s@);
    if s@.len() > 0 && s@[0] == '+' {
        assert(!is_digit(s@[0]));
    }
}

/// A text that ends with another is some text and then the other, and no text ends
/// with a longer one.
pub proof fn law_what_is_no_end(s: &str, end: &str, r: bool)
    requires
        call_ensures(ends_with, (s, end), r),
    ensures
        r ==> end@.len() <= s@.len() && s@ == s@.take(s@.len() - end@.len()) + end@,
        end@.len() > s@.len() ==> !r,
{
    if r {
        let k = s@.len() - end@.len();
        assert(s@ == s@.take(k) + s@.subrange(k, s@.len() as int));
    }
}

/// A negative number is a `-` and the number without its sign. No other number
/// has a sign.
pub proof fn law_what_a_negative_number_is(n: i64, r: String, m: u64, plain: String)
    requires
        n > i64::MIN,
        call_ensures(signed_decimal, (n,), r),
        call_ensures(decimal, (m,), plain),
        m == n || m == -n,
    ensures
        n < 0 ==> r@ == seq!['-'] + plain@,
        n >= 0 ==> r@ == plain@,
{
    reveal_strlit("-");
}

} // verus!
