//! Ids: the id of a job, and short words that name one thing among a few.

use crate::job;
use crate::text;
use vstd::prelude::*;
use vstd::string::*;

verus! {

/// A hexadecimal digit with a small letter.
pub open spec fn small_hex(c: char) -> bool {
    '0' <= c <= '9' || 'a' <= c <= 'f'
}

/// A hexadecimal digit.
pub open spec fn any_hex(c: char) -> bool {
    small_hex(c) || 'A' <= c <= 'F'
}

/// The digits of an id: 32 of them.
pub open spec fn id_digits(id: nat) -> Seq<char> {
    text::padded(job::hex(id), '0', 32)
}

/// The text of an id: its digits in five groups with `-` between them.
pub open spec fn hyphenated(id: nat) -> Seq<char> {
    let d = id_digits(id);
    d.subrange(0, 8) + "-"@ + d.subrange(8, 12) + "-"@ + d.subrange(12, 16) + "-"@ + d.subrange(
        16,
        20,
    ) + "-"@ + d.subrange(20, 32)
}

/// The form of the text of an id.
pub open spec fn hyphenated_form(s: Seq<char>) -> bool {
    &&& s.len() == 36
    &&& forall|i: int|
        0 <= i < 36 ==> if i == 8 || i == 13 || i == 18 || i == 23 {
            #[trigger] s[i] == '-'
        } else {
            any_hex(s[i])
        }
}

/// The forms in which an id can be written: its digits alone, the usual form,
/// that form in braces, and that form after `urn:uuid:`.
pub open spec fn id_form(s: Seq<char>) -> bool {
    ||| s.len() == 32 && forall|i: int| 0 <= i < 32 ==> any_hex(#[trigger] s[i])
    ||| hyphenated_form(s)
    ||| s.len() == 38 && s[0] == '{' && s[37] == '}' && hyphenated_form(s.subrange(1, 37))
    ||| s.len() == 45 && text::lowered(s.take(9)) == "urn:uuid:"@ && hyphenated_form(s.skip(9))
}

/// `Uuid::from_u128` and the `Display` of `uuid::Uuid`: the text has the five
/// groups of digits of the number, with small letters.
#[verifier::external_body]
pub(crate) fn id_text(id: u128) -> (r: String)
    ensures
        r@ == hyphenated(id as nat),
{
    uuid::Uuid::from_u128(id).to_string()
}

/// `Uuid::parse_str`: it accepts exactly the texts that have one of the forms
/// of an id.
#[verifier::external_body]
pub(crate) fn is_id(s: &str) -> (r: bool)
    ensures
        r == id_form(s@),
{
    uuid::Uuid::parse_str(s).is_ok()
}

/// `Uuid::new_v4` and `Uuid::simple`: 32 hexadecimal digits with small
/// letters. Which digits they are depends on chance.
#[verifier::external_body]
pub(crate) fn draw() -> (r: String)
    ensures
        r@.len() == 32,
        forall|i: int| 0 <= i < 32 ==> small_hex(#[trigger] r@[i]),
{
    uuid::Uuid::new_v4().simple().to_string()
}

/// True for a short word of 8 hexadecimal digits.
pub open spec fn short_word(s: Seq<char>) -> bool {
    s.len() == 8 && forall|i: int| 0 <= i < 8 ==> small_hex(#[trigger] s[i])
}

/// True when the text is longer than each text of the list.
pub open spec fn longer(s: Seq<char>, list: Seq<Seq<char>>) -> bool {
    forall|i: int| 0 <= i < list.len() ==> (#[trigger] list[i]).len() < s.len()
}

/// The number of words to draw before qex counts the words through.
pub const DRAWS: u32 = 1000;

/// The number of short words.
pub const WORDS: u64 = 0x1_0000_0000;

/// The short word with a number.
pub open spec fn word(n: nat) -> Seq<char> {
    text::padded(job::hex(n), '0', 8)
}

/// The number that a hexadecimal digit stands for.
pub open spec fn digit_value(c: char) -> nat {
    if c <= '9' {
        (c as nat - 48) as nat
    } else {
        (c as nat - 87) as nat
    }
}

/// The number that hexadecimal digits give.
pub open spec fn value(s: Seq<char>) -> nat
    decreases s.len(),
{
    if s.len() == 0 {
        0
    } else {
        value(s.drop_last()) * 16 + digit_value(s.last())
    }
}

/// The number of values that `n` hexadecimal digits have.
pub open spec fn power16(n: nat) -> nat
    decreases n,
{
    if n == 0 {
        1
    } else {
        16 * power16((n - 1) as nat)
    }
}

pub proof fn lemma_hex(n: nat, width: nat)
    requires
        n < power16(width),
        width > 0,
    ensures
        value(job::hex(n)) == n,
        1 <= job::hex(n).len() <= width,
        forall|i: int| 0 <= i < job::hex(n).len() ==> small_hex(#[trigger] job::hex(n)[i]),
    decreases width,
{
    let h = job::hex(n);
    if n >= 16 {
        assert(n / 16 < power16((width - 1) as nat)) by (nonlinear_arith)
            requires
                n < 16 * power16((width - 1) as nat),
        ;
        assert(width > 1);
        lemma_hex(n / 16, (width - 1) as nat);
        assert(h.drop_last() == job::hex(n / 16));
        assert(h.last() == job::hex_digit(n % 16));
        assert(digit_value(h.last()) == n % 16);
        assert(value(h) == value(h.drop_last()) * 16 + digit_value(h.last()));
    } else {
        assert(h.drop_last() == Seq::<char>::empty());
        assert(h.last() == job::hex_digit(n));
        assert(digit_value(h.last()) == n);
        assert(value(h.drop_last()) == 0);
    }
}

proof fn lemma_value_padded(k: nat, s: Seq<char>)
    ensures
        value(Seq::new(k, |i: int| '0') + s) == value(s),
    decreases k + s.len(),
{
    let zeros = Seq::new(k, |i: int| '0');
    let t = zeros + s;
    if s.len() > 0 {
        assert(t.drop_last() == zeros + s.drop_last());
        assert(t.last() == s.last());
        lemma_value_padded(k, s.drop_last());
    } else if k > 0 {
        assert(t.drop_last() == Seq::new((k - 1) as nat, |i: int| '0') + s);
        lemma_value_padded((k - 1) as nat, s);
    } else {
        assert(t == s);
    }
}

proof fn lemma_word(n: nat)
    requires
        n < WORDS,
    ensures
        short_word(word(n)),
        value(word(n)) == n,
{
    reveal_with_fuel(power16, 9);
    lemma_hex(n, 8);
    lemma_value_padded((8 - job::hex(n).len()) as nat, job::hex(n));
    assert(word(n) == Seq::new((8 - job::hex(n).len()) as nat, |i: int| '0') + job::hex(n));
}

/// A list with fewer words than the count does not hold them all.
proof fn lemma_a_word_is_free(list: Seq<Seq<char>>)
    requires
        list.len() < WORDS,
    ensures
        exists|n: nat| n <= list.len() && !list.contains(#[trigger] word(n)),
{
    if forall|n: nat| n <= list.len() ==> list.contains(#[trigger] word(n)) {
        let all = Seq::new((list.len() + 1) as nat, |i: int| word(i as nat));
        assert(all.no_duplicates()) by {
            assert forall|i: int, j: int| 0 <= i < all.len() && 0 <= j < all.len() && i
                != j implies all[i] != all[j] by {
                lemma_word(i as nat);
                lemma_word(j as nat);
            }
        }
        all.unique_seq_to_set();
        list.lemma_cardinality_of_set();
        vstd::seq_lib::seq_to_set_is_finite(list);
        assert(all.to_set().subset_of(list.to_set())) by {
            assert forall|x: Seq<char>| all.to_set().contains(x) implies list.to_set().contains(
                x,
            ) by {
                let k = choose|k: int| 0 <= k < all.len() && all[k] == x;
                assert(list.contains(word(k as nat)));
            }
        }
        vstd::set_lib::lemma_len_subset(all.to_set(), list.to_set());
    }
}

/// Counts the short words through, up to one that the list does not hold.
fn free_word(taken: &Vec<String>) -> (r: String)
    requires
        taken@.len() < WORDS,
    ensures
        short_word(r@),
        !text::views(taken@).contains(r@),
{
    let ghost list = text::views(taken@);
    proof {
        lemma_a_word_is_free(list);
    }
    let mut n: u64 = 0;
    loop
        invariant
            n <= taken@.len() < WORDS,
            list == text::views(taken@),
            forall|k: nat| k < n ==> list.contains(#[trigger] word(k)),
            exists|k: nat| k <= list.len() && !list.contains(#[trigger] word(k)),
        decreases taken@.len() - n,
    {
        let w = text::pad_left(job::hexadecimal(n).as_str(), '0', 8);
        proof {
            lemma_word(n as nat);
        }
        if !text::contains(taken, w.as_str()) {
            return w;
        }
        assert(list.contains(word(n as nat)));
        n += 1;
    }
}

/// A word that is longer than each word of the list.
fn longer_word(taken: &Vec<String>) -> (r: String)
    ensures
        longer(r@, text::views(taken@)),
        r@.len() > 8,
{
    let mut out = text::owned("000000000");
    proof {
        reveal_strlit("000000000");
    }
    let mut i: usize = 0;
    while i < taken.len()
        invariant
            i <= taken@.len(),
            out@.len() > 8,
            longer(out@, text::views(taken@).take(i as int)),
        decreases taken@.len() - i,
    {
        let ghost before = out@;
        out.append(taken[i].as_str());
        assert(text::views(taken@)[i as int] == taken@[i as int]@);
        assert forall|j: int| 0 <= j < i + 1 implies (#[trigger] text::views(taken@).take(
            i + 1,
        )[j]).len() < out@.len() by {
            if j < i {
                assert(text::views(taken@).take(i as int)[j].len() < before.len());
            }
        }
        i += 1;
    }
    assert(text::views(taken@).take(taken@.len() as int) == text::views(taken@));
    out
}

/// Makes the id of a new request: short, opaque, and unique in `taken`. Only a
/// list that can hold every short word gets a longer one.
pub fn new_id(taken: &Vec<String>) -> (r: String)
    ensures
        !text::views(taken@).contains(r@),
        short_word(r@) || (taken@.len() >= WORDS && longer(r@, text::views(taken@)) && r@.len()
            > 8),
{
    let mut n: u32 = 0;
    while n < DRAWS
        invariant
            n <= DRAWS,
        decreases DRAWS - n,
    {
        let word = draw();
        let c = text::chars(word.as_str());
        let id = text::piece(&c, 0, 8);
        assert(short_word(id@));
        if !text::contains(taken, id.as_str()) {
            return id;
        }
        n += 1;
    }
    if (taken.len() as u64) < WORDS {
        free_word(taken)
    } else {
        longer_word(taken)
    }
}

/// The digits of an id give its number, so two ids have two texts.
pub proof fn law_two_ids_have_two_texts(a: u128, b: u128)
    ensures
        value(id_digits(a as nat)) == a,
        id_digits(a as nat).len() == 32,
        a != b ==> hyphenated(a as nat) != hyphenated(b as nat),
        hyphenated_form(hyphenated(a as nat)),
        id_form(hyphenated(a as nat)),
{
    lemma_id_digits(a);
    lemma_id_digits(b);
    lemma_groups(id_digits(a as nat));
    lemma_groups(id_digits(b as nat));
    if hyphenated(a as nat) == hyphenated(b as nat) {
        assert(id_digits(a as nat) == id_digits(b as nat));
    }
}

proof fn lemma_power_of_id()
    ensures
        power16(32) == 0x1_0000_0000_0000_0000_0000_0000_0000_0000int,
{
    reveal_with_fuel(power16, 33);
}

proof fn lemma_id_digits(id: u128)
    ensures
        id_digits(id as nat).len() == 32,
        value(id_digits(id as nat)) == id,
        forall|i: int| 0 <= i < 32 ==> small_hex(#[trigger] id_digits(id as nat)[i]),
{
    lemma_power_of_id();
    lemma_hex(id as nat, 32);
    let h = job::hex(id as nat);
    lemma_value_padded((32 - h.len()) as nat, h);
    let d = id_digits(id as nat);
    if h.len() == 32 {
        assert(d == h);
    } else {
        let zeros = Seq::new((32 - h.len()) as nat, |i: int| '0');
        assert(d == zeros + h);
        assert forall|i: int| 0 <= i < 32 implies small_hex(#[trigger] d[i]) by {
            if i < zeros.len() {
                assert(d[i] == '0');
            } else {
                assert(d[i] == h[i - zeros.len()]);
            }
        }
    }
}

/// The text of an id, from its digits.
spec fn grouped(d: Seq<char>) -> Seq<char> {
    d.subrange(0, 8) + "-"@ + d.subrange(8, 12) + "-"@ + d.subrange(12, 16) + "-"@ + d.subrange(
        16,
        20,
    ) + "-"@ + d.subrange(20, 32)
}

proof fn lemma_groups(d: Seq<char>)
    requires
        d.len() == 32,
        forall|i: int| 0 <= i < 32 ==> small_hex(#[trigger] d[i]),
    ensures
        hyphenated_form(grouped(d)),
        d == grouped(d).subrange(0, 8) + grouped(d).subrange(9, 13) + grouped(d).subrange(14, 18)
            + grouped(d).subrange(19, 23) + grouped(d).subrange(24, 36),
{
    reveal_strlit("-");
    let s = grouped(d);
    assert(s.len() == 36);
    assert(s.subrange(0, 8) == d.subrange(0, 8));
    assert(s.subrange(9, 13) == d.subrange(8, 12));
    assert(s.subrange(14, 18) == d.subrange(12, 16));
    assert(s.subrange(19, 23) == d.subrange(16, 20));
    assert(s.subrange(24, 36) == d.subrange(20, 32));
    assert forall|i: int| 0 <= i < 36 implies if i == 8 || i == 13 || i == 18 || i == 23 {
        #[trigger] s[i] == '-'
    } else {
        any_hex(s[i])
    } by {
        if i < 8 {
            assert(s[i] == d[i]);
        } else if 8 < i < 13 {
            assert(s[i] == d[i - 1]);
        } else if 13 < i < 18 {
            assert(s[i] == d[i - 2]);
        } else if 18 < i < 23 {
            assert(s[i] == d[i - 3]);
        } else if 23 < i {
            assert(s[i] == d[i - 4]);
        }
    }
}

/// A new id is none of those that are taken. It has 8 hexadecimal digits, unless
/// so many are taken that every such word could be.
pub proof fn law_a_new_id_is_free(taken: &Vec<String>, r: String, i: int)
    requires
        call_ensures(new_id, (taken,), r),
        0 <= i < taken@.len(),
    ensures
        r@ != taken@[i]@,
        taken@.len() < 0x1_0000_0000 ==> r@.len() == 8 && forall|k: int|
            0 <= k < 8 ==> '0' <= #[trigger] r@[k] <= '9' || 'a' <= r@[k] <= 'f',
{
    assert(text::views(taken@)[i] == taken@[i]@);
    assert(text::views(taken@).contains(taken@[i]@));
}

/// An id is read from its digits, from its usual form, from that form in braces,
/// and from that form behind `urn:uuid:`.
pub proof fn law_the_forms_of_an_id(id: u128)
    ensures
        id_form(id_digits(id as nat)),
        id_form(hyphenated(id as nat)),
        id_form(seq!['{'] + hyphenated(id as nat) + seq!['}']),
        id_form("urn:uuid:"@ + hyphenated(id as nat)),
{
    reveal_strlit("urn:uuid:");
    lemma_id_digits(id);
    law_two_ids_have_two_texts(id, id);
    let d = id_digits(id as nat);
    assert forall|i: int| 0 <= i < 32 implies any_hex(#[trigger] d[i]) by {
        assert(small_hex(d[i]));
    }
    let h = hyphenated(id as nat);
    let braces = seq!['{'] + h + seq!['}'];
    assert(braces.subrange(1, 37) == h);
    assert(braces[0] == '{' && braces[37] == '}');
    let urn = "urn:uuid:"@ + h;
    assert(urn.skip(9) == h);
    assert(text::lowered(urn.take(9)) == "urn:uuid:"@);
}

} // verus!
