//! Sizes, times and counts in the form that a person reads.

use crate::text;
use vstd::prelude::*;
use vstd::string::*;

verus! {

/// The text of a size: the number of whole units, in the largest unit that is
/// not above the size. One unit step is 1024.
pub open spec fn size_text(bytes: nat) -> Seq<char> {
    if bytes < 1024 {
        text::digits(bytes) + "B"@
    } else if bytes < 1024 * 1024 {
        text::digits(bytes / 1024) + "KB"@
    } else if bytes < 1024 * 1024 * 1024 {
        text::digits(bytes / (1024 * 1024)) + "MB"@
    } else if bytes < 1024 * 1024 * 1024 * 1024 {
        text::digits(bytes / (1024 * 1024 * 1024)) + "GB"@
    } else {
        text::digits(bytes / (1024 * 1024 * 1024 * 1024)) + "TB"@
    }
}

/// Writes a size, such as `32MB`.
pub fn format_size(bytes: u64) -> (r: String)
    ensures
        r@ == size_text(bytes as nat),
{
    let (n, unit): (u64, &str) = if bytes < 1024 {
        (bytes, "B")
    } else if bytes < 1_048_576 {
        (bytes / 1024, "KB")
    } else if bytes < 1_073_741_824 {
        (bytes / 1_048_576, "MB")
    } else if bytes < 1_099_511_627_776 {
        (bytes / 1_073_741_824, "GB")
    } else {
        (bytes / 1_099_511_627_776, "TB")
    };
    let mut out = text::decimal(n);
    out.append(unit);
    out
}

/// A number of whole units and, where something is left, the number of the
/// next smaller units.
pub open spec fn two_units(n: nat, unit: Seq<char>, rest: nat, small: Seq<char>) -> Seq<char> {
    if rest == 0 {
        text::digits(n) + unit
    } else {
        text::digits(n) + unit + text::digits(rest) + small
    }
}

/// The text of a time: its largest unit, and the unit below it where that one
/// is not zero.
pub open spec fn duration_text(secs: nat) -> Seq<char> {
    if secs < 60 {
        text::digits(secs) + "s"@
    } else if secs < 3600 {
        two_units(secs / 60, "m"@, secs % 60, "s"@)
    } else if secs < 86400 {
        two_units(secs / 3600, "h"@, secs % 3600 / 60, "m"@)
    } else {
        two_units(secs / 86400, "d"@, secs % 86400 / 3600, "h"@)
    }
}

fn join_units(n: u64, unit: &str, rest: u64, small: &str) -> (r: String)
    ensures
        r@ == two_units(n as nat, unit@, rest as nat, small@),
{
    let mut out = text::decimal(n);
    out.append(unit);
    if rest > 0 {
        out.append(text::decimal(rest).as_str());
        out.append(small);
    }
    out
}

/// Writes a time in seconds, such as `6m` or `1h30m`.
pub fn format_duration(secs: u64) -> (r: String)
    ensures
        r@ == duration_text(secs as nat),
{
    if secs < 60 {
        let mut out = text::decimal(secs);
        out.append("s");
        out
    } else if secs < 3600 {
        join_units(secs / 60, "m", secs % 60, "s")
    } else if secs < 86400 {
        join_units(secs / 3600, "h", secs % 3600 / 60, "m")
    } else {
        join_units(secs / 86400, "d", secs % 86400 / 3600, "h")
    }
}

/// A count with its word, which takes an `s` for every count but one.
pub open spec fn count_text(n: nat, word: Seq<char>) -> Seq<char> {
    if n == 1 {
        text::digits(n) + " "@ + word
    } else {
        text::digits(n) + " "@ + word + "s"@
    }
}

/// Writes a count with its word, such as `1 line` or `11 lines`.
pub fn count_of(n: usize, word: &str) -> (r: String)
    ensures
        r@ == count_text(n as nat, word@),
{
    let mut out = text::decimal(n as u64);
    out.append(" ");
    out.append(word);
    if n != 1 {
        out.append("s");
    }
    out
}

/// A number has no more digits than a larger one.
pub proof fn lemma_digits_len(n: nat, k: nat)
    requires
        k > 0,
        n < vstd::arithmetic::power::pow(10, k),
    ensures
        0 < text::digits(n).len() <= k,
        forall|i: int| 0 <= i < text::digits(n).len() ==> text::is_digit(#[trigger] text::digits(n)[i]),
    decreases k,
{
    reveal(vstd::arithmetic::power::pow);
    if n >= 10 {
        assert(k > 1) by {
            if k == 1 {
                assert(vstd::arithmetic::power::pow(10, 1) == 10 * vstd::arithmetic::power::pow(10, 0));
            }
        }
        let p = vstd::arithmetic::power::pow(10, (k - 1) as nat);
        assert(vstd::arithmetic::power::pow(10, k) == 10 * p);
        assert(n / 10 < p);
        lemma_digits_len(n / 10, (k - 1) as nat);
        assert forall|i: int| 0 <= i < text::digits(n).len() implies text::is_digit(
            #[trigger] text::digits(n)[i],
        ) by {
            if i < text::digits(n / 10).len() {
                assert(text::digits(n)[i] == text::digits(n / 10)[i]);
            } else {
                assert(text::digits(n)[i] == text::digit(n % 10));
            }
        }
    } else {
        assert(text::digits(n) == seq![text::digit(n)]);
    }
}

/// A 64-bit number has 20 digits at most.
pub proof fn lemma_u64_digits(n: nat)
    requires
        n <= u64::MAX,
    ensures
        0 < text::digits(n).len() <= 20,
        forall|i: int| 0 <= i < text::digits(n).len() ==> text::is_digit(#[trigger] text::digits(n)[i]),
{
    assert(vstd::arithmetic::power::pow(10, 20) == 100_000_000_000_000_000_000int) by {
        reveal_with_fuel(vstd::arithmetic::power::pow, 21);
    }
    lemma_digits_len(n, 20);
}

/// A size shows as the number of its whole units, in the largest unit of which
/// it has one. The unit is 1024 times the one before it.
pub proof fn law_a_size_shows_its_largest_unit(n: nat, rest: nat)
    ensures
        n < 1024 ==> size_text(n) == text::digits(n) + "B"@,
        1 <= n < 1024 && rest < 1024 ==> size_text(n * 1024 + rest) == text::digits(n) + "KB"@,
        1 <= n < 1024 && rest < 1048576 ==> size_text(n * 1048576 + rest) == text::digits(n)
            + "MB"@,
        1 <= n < 1024 && rest < 1073741824 ==> size_text(n * 1073741824 + rest) == text::digits(n)
            + "GB"@,
        1 <= n && rest < 1099511627776 ==> size_text(n * 1099511627776 + rest) == text::digits(n)
            + "TB"@,
{
}

/// A time of less than an hour shows its minutes and its seconds, each where
/// there are any.
pub proof fn law_a_time_in_minutes(minutes: nat, seconds: nat)
    requires
        minutes < 60,
        seconds < 60,
    ensures
        minutes == 0 ==> duration_text(seconds) == text::digits(seconds) + "s"@,
        minutes > 0 && seconds == 0 ==> duration_text(minutes * 60) == text::digits(minutes) + "m"@,
        minutes > 0 && seconds > 0 ==> duration_text(minutes * 60 + seconds) == text::digits(minutes)
            + "m"@ + text::digits(seconds) + "s"@,
{
    let t = minutes * 60 + seconds;
    assert(t / 60 == minutes && t % 60 == seconds);
}

/// A time of less than a day shows its hours, and its minutes where there are
/// any. The seconds do not show.
pub proof fn law_a_time_in_hours(hours: nat, minutes: nat, seconds: nat)
    requires
        1 <= hours < 24,
        minutes < 60,
        seconds < 60,
    ensures
        minutes == 0 ==> duration_text(hours * 3600 + seconds) == text::digits(hours) + "h"@,
        minutes > 0 ==> duration_text(hours * 3600 + minutes * 60 + seconds) == text::digits(hours)
            + "h"@ + text::digits(minutes) + "m"@,
{
    let t = hours * 3600 + minutes * 60 + seconds;
    assert(t / 3600 == hours);
    assert(t % 3600 == minutes * 60 + seconds);
    assert((minutes * 60 + seconds) / 60 == minutes);
}

/// A time of a day or more shows its days, and its hours where there are any.
pub proof fn law_a_time_in_days(days: nat, hours: nat, seconds: nat)
    requires
        1 <= days,
        hours < 24,
        seconds < 3600,
    ensures
        hours == 0 ==> duration_text(days * 86400 + seconds) == text::digits(days) + "d"@,
        hours > 0 ==> duration_text(days * 86400 + hours * 3600 + seconds) == text::digits(days)
            + "d"@ + text::digits(hours) + "h"@,
{
    let t = days * 86400 + hours * 3600 + seconds;
    assert(t / 86400 == days);
    assert(t % 86400 == hours * 3600 + seconds);
    assert((hours * 3600 + seconds) / 3600 == hours);
}

/// A word takes an `s` for every count but one.
pub proof fn law_one_is_no_plural(n: usize, word: &str, r: String)
    requires
        call_ensures(count_of, (n, word), r),
    ensures
        n == 1 ==> r@ == text::digits(1) + " "@ + word@,
        n != 1 ==> r@ == text::digits(n as nat) + " "@ + word@ + "s"@,
{
}

/// What the two writers give is the text of the size and of the time.
pub proof fn law_sizes_and_times_are_written(n: u64, rest: u64, size: String, time: String)
    requires
        1 <= n < 1024,
        0 < rest < 60,
        call_ensures(format_size, ((n * 1024 + rest) as u64,), size),
        call_ensures(format_duration, ((n * 60 + rest) as u64,), time),
    ensures
        size@ == text::digits(n as nat) + "KB"@,
        n < 60 ==> time@ == text::digits(n as nat) + "m"@ + text::digits(rest as nat) + "s"@,
{
    law_a_size_shows_its_largest_unit(n as nat, rest as nat);
    if n < 60 {
        law_a_time_in_minutes(n as nat, rest as nat);
    }
}

} // verus!
