use qex::logsel::{parse_range, LogSelect, DEFAULT_MATCHES};
use qex::pattern::{match_here, match_one, parse_tokens, Matcher, Token};
use qex::stamp::{date_of, near_stamp_text, rfc3339, stamp_text};
use qex::units::{count_of, format_duration, format_size};

fn sel() -> LogSelect {
    LogSelect::default()
}

fn text() -> String {
    (1..=1000)
        .map(|i| format!("line-{i}"))
        .collect::<Vec<_>>()
        .join("\n")
}

#[test]
fn with_no_option_the_last_lines_come_back() {
    let out = sel().apply(&text(), 500).unwrap();
    assert_eq!(out.text.lines().count(), 500);
    assert!(out.text.contains("line-1000"));
    assert!(!out.text.contains("line-1\n"), "the first line must be hidden");
    assert!(out.truncated);
    assert_eq!(out.hidden, 500);
}

#[test]
fn head_gives_the_start_and_tail_gives_the_end() {
    let mut s = sel();
    s.head = Some(3);
    let out = s.apply(&text(), 500).unwrap();
    assert_eq!(out.text.lines().next().unwrap(), "line-1");
    assert_eq!(out.text.lines().count(), 3);

    let mut s = sel();
    s.tail = Some(3);
    let out = s.apply(&text(), 500).unwrap();
    assert_eq!(out.text.lines().last().unwrap(), "line-1000");
    assert_eq!(out.text.lines().count(), 3);
}

#[test]
fn a_range_gives_the_lines_between_two_numbers() {
    let mut s = sel();
    s.lines = Some("10:12".into());
    let out = s.apply(&text(), 500).unwrap();
    assert_eq!(out.text, "line-10\nline-11\nline-12\n");
}

#[test]
fn a_range_with_an_incorrect_form_gives_a_clear_error() {
    let mut s = sel();
    s.lines = Some("10".into());
    assert!(s.apply(&text(), 500).unwrap_err().contains("N:M"));

    s.lines = Some("50:10".into());
    assert!(s.apply(&text(), 500).unwrap_err().contains("after"));

    s.lines = Some("0:5".into());
    assert!(s.apply(&text(), 500).unwrap_err().contains("starts at 1"));
}

#[test]
fn all_gives_every_line() {
    let mut s = sel();
    s.all = true;
    let out = s.apply(&text(), 500).unwrap();
    assert_eq!(out.text.lines().count(), 1000);
    assert!(!out.truncated);
}

#[test]
fn the_line_numbers_appear_with_the_option() {
    let mut s = sel();
    s.tail = Some(1);
    s.number = true;
    let out = s.apply(&text(), 500).unwrap();
    assert!(out.text.contains("1000"), "got: {}", out.text);
}

#[test]
fn a_search_gives_the_lines_that_match() {
    let body = "alpha ok\nbeta FAIL here\ngamma ok\ndelta FAIL too\n";
    let mut s = sel();
    s.grep = Some("FAIL".into());
    let out = s.apply(body, 500).unwrap();
    // The output holds a mark where the selection leaves a gap, so count the
    // log lines only.
    let shown: Vec<&str> = out.text.lines().filter(|l| *l != "--").collect();
    assert_eq!(shown, vec!["beta FAIL here", "delta FAIL too"]);
    assert_eq!(out.matches, Some(2));
}

#[test]
fn the_context_option_gives_the_lines_around_a_match() {
    let body = "a\nb\nFAIL\nc\nd\ne\n";
    let mut s = sel();
    s.grep = Some("FAIL".into());
    s.context = Some(1);
    let out = s.apply(body, 500).unwrap();
    assert_eq!(out.text, "b\nFAIL\nc\n");
}

#[test]
fn a_gap_between_matches_is_marked() {
    let body = "FAIL one\nx\nx\nx\nx\nFAIL two\n";
    let mut s = sel();
    s.grep = Some("FAIL".into());
    let out = s.apply(body, 500).unwrap();
    assert!(out.text.contains("--\n"), "got: {}", out.text);
}

#[test]
fn the_search_reads_a_small_pattern_language() {
    let body = "error: one\nwarning: two\nERROR: three\nnote: four\n";

    let mut s = sel();
    s.grep = Some("error|warning".into());
    assert_eq!(s.apply(body, 500).unwrap().text.lines().count(), 2);

    let mut s = sel();
    s.grep = Some("^note".into());
    assert_eq!(s.apply(body, 500).unwrap().text.trim(), "note: four");

    let mut s = sel();
    s.grep = Some("e[rn]ror".into());
    assert_eq!(s.apply(body, 500).unwrap().text.lines().count(), 1);

    let mut s = sel();
    s.grep = Some("t.*ee$".into());
    assert_eq!(s.apply(body, 500).unwrap().text.trim(), "ERROR: three");
}

#[test]
fn the_fixed_option_reads_the_value_as_plain_text() {
    let body = "cost is 3.50\ncost is 3x50\n";
    let mut s = sel();
    s.grep = Some("3.50".into());
    // As a pattern, the dot matches any character.
    assert_eq!(s.apply(body, 500).unwrap().text.lines().count(), 2);

    s.fixed = true;
    assert_eq!(s.apply(body, 500).unwrap().text.trim(), "cost is 3.50");
}

#[test]
fn an_unsupported_pattern_names_the_alternative() {
    let mut s = sel();
    s.grep = Some("(a|b)c".into());
    let err = s.apply("abc", 500).unwrap_err();
    assert!(err.contains("--fixed"), "got: {err}");
}

#[test]
fn a_search_that_matches_everything_still_has_a_limit() {
    let mut s = sel();
    s.grep = Some("line".into());
    let out = s.apply(&text(), 500).unwrap();

    assert_eq!(out.matches, Some(1000), "the total must be the true total");
    assert_eq!(out.matches_shown, DEFAULT_MATCHES);
    assert_eq!(out.text.lines().count(), DEFAULT_MATCHES);
}

#[test]
fn the_match_limit_keeps_the_first_matches() {
    let mut s = sel();
    s.grep = Some("line".into());
    s.max_matches = Some(3);
    let out = s.apply(&text(), 500).unwrap();
    assert_eq!(out.matches, Some(1000));
    assert_eq!(out.matches_shown, 3);
    assert_eq!(out.text, "line-1\nline-2\nline-3\n");
}

#[test]
fn the_limit_counts_the_matches_and_not_the_lines() {
    let body: String = (1..=100)
        .map(|i| format!("pad-{i}\nFAIL-{i}\npad2-{i}\n"))
        .collect();
    let mut s = sel();
    s.grep = Some("FAIL".into());
    s.context = Some(1);
    s.max_matches = Some(5);
    let out = s.apply(&body, 500).unwrap();
    assert_eq!(out.matches, Some(100));
    assert_eq!(out.matches_shown, 5);
    // Five matches, and one line before and after each one.
    assert_eq!(out.text.lines().filter(|l| l.starts_with("FAIL")).count(), 5);
}

#[test]
fn all_removes_the_match_limit() {
    let mut s = sel();
    s.grep = Some("line".into());
    s.all = true;
    let out = s.apply(&text(), 500).unwrap();
    assert_eq!(out.matches, Some(1000));
    assert_eq!(out.matches_shown, 1000);
}

#[test]
fn every_line_is_shown_or_counted() {
    for (head, tail) in [(Some(3), None), (None, Some(7)), (None, None), (Some(2000), None)] {
        let mut s = sel();
        s.head = head;
        s.tail = tail;
        let out = s.apply(&text(), 20).unwrap();
        assert_eq!(out.text.lines().count() + out.hidden, 1000);
    }
    assert_eq!(sel().apply("", 500).unwrap().text, "");
}

#[test]
fn the_notice_says_what_the_selection_hid() {
    let out = sel().apply(&text(), 500).unwrap();
    let notice = out.notice().expect("a selection that hides lines says so");
    assert!(notice.contains("500"), "{notice}");
    let mut s = sel();
    s.all = true;
    assert_eq!(s.apply(&text(), 500).unwrap().notice(), None);
}

#[test]
fn a_range_says_what_is_wrong_with_it() {
    assert_eq!(parse_range("10:12"), Ok((10, 12)));
    assert_eq!(parse_range("3:3"), Ok((3, 3)));
    for wrong in ["", "10", "a:2", "2:b", "0:5", "9:8", "1:2:3", "-1:4"] {
        assert!(parse_range(wrong).is_err(), "`{wrong}`");
    }
}

#[test]
fn only_an_option_makes_a_selection_explicit() {
    assert!(!sel().is_explicit());
    let mut s = sel();
    s.tail = Some(1);
    assert!(s.is_explicit());
    assert!(sel().check_with_follow().is_ok());
    let mut s = sel();
    s.lines = Some("1:2".into());
    assert!(s.check_with_follow().is_err());
}

#[test]
fn the_tokens_of_a_pattern_take_what_they_stand_for() {
    let chars: Vec<char> = "aab".chars().collect();
    let tokens = parse_tokens("a*b").unwrap();
    assert_eq!(match_here(&tokens, &chars, 0), Some(3));
    let tokens = parse_tokens("a+").unwrap();
    assert_eq!(match_here(&tokens, &chars, 2), None);
    assert_eq!(match_one(&Token::Any, &chars, 0), Some(1));
    assert_eq!(match_one(&Token::Any, &chars, 3), None);
    assert_eq!(
        parse_tokens("*a").unwrap_err(),
        "`*` has nothing before it in `*a`"
    );
}

#[test]
fn a_matcher_finds_a_pattern_at_any_place() {
    let m = Matcher::new("d.g$", false).unwrap();
    assert!(m.matches("a long dog") && m.matches("dxg"));
    assert!(!m.matches("dogs"));
    let fixed = Matcher::new("o.g", true).unwrap();
    assert!(fixed.matches("x o.g x"));
    assert!(!fixed.matches("dog"));
}

#[test]
fn a_size_and_a_duration_have_one_form() {
    assert_eq!(format_size(0), "0B");
    assert_eq!(format_size(512), "512B");
    assert_eq!(format_size(16_384), "16KB");
    assert_eq!(format_size(1 << 20), "1MB");
    assert_eq!(format_size(5 << 30), "5GB");
    assert_eq!(format_size(3 << 40), "3TB");
    assert_eq!(format_duration(0), "0s");
    assert_eq!(format_duration(59), "59s");
    assert_eq!(format_duration(90), "1m30s");
    assert_eq!(format_duration(3600), "1h");
    assert_eq!(format_duration(90_000), "1d1h");
    assert_eq!(count_of(1, "job"), "1 job");
    assert_eq!(count_of(2, "job"), "2 jobs");
}

#[test]
fn a_moment_has_its_date() {
    let d = date_of(0);
    assert_eq!((d.year, d.month, d.day), (1970, 1, 1));
    let d = date_of(19782);
    assert_eq!((d.year, d.month, d.day), (2024, 2, 29));
    assert_eq!(rfc3339(0), "1970-01-01T00:00:00Z");
    assert_eq!(rfc3339(951_826_154), "2000-02-29T12:09:14Z");
    assert_eq!(stamp_text(60), "1970-01-01 00:01 UTC");
    // On the same day the clock alone is enough.
    assert_eq!(near_stamp_text(3600, 7200), "01:00 UTC");
    assert_eq!(near_stamp_text(3600, 7200 + 86_400 * 3), "1970-01-01 01:00 UTC");
}

#[test]
fn the_count_of_shown_matches_is_that_of_the_output() {
    let grep = |s: LogSelect| LogSelect {
        grep: Some("x".into()),
        ..s
    };
    let three = "x\nx\nx\n";

    let out = grep(LogSelect { tail: Some(1), ..sel() }).apply(three, 500).unwrap();
    assert_eq!(out.text, "x\n");
    assert_eq!((out.matches, out.matches_shown), (Some(3), 1));
    assert!(out.truncated);
    assert_eq!(
        out.notice().unwrap(),
        "... 3 line(s) match, and qex shows the first 1. Use `--max-matches N`, `--all`, or a \
         narrower pattern."
    );

    let out = grep(LogSelect { lines: Some("2:3".into()), ..sel() })
        .apply("x\ny\nx\nx\n", 500)
        .unwrap();
    assert_eq!((out.matches, out.matches_shown, out.hidden), (Some(3), 1, 2));

    // A context line stays, and the match beside it does not.
    let out = grep(LogSelect { head: Some(1), context: Some(1), ..sel() })
        .apply("a\nx\nb\n", 500)
        .unwrap();
    assert_eq!(out.text, "a\n");
    assert_eq!((out.matches, out.matches_shown), (Some(1), 0));

    let out = grep(sel()).apply(three, 500).unwrap();
    assert_eq!((out.matches, out.matches_shown), (Some(3), 3));
    assert!(!out.truncated);
    assert_eq!(out.notice().unwrap(), "... 3 line(s) match.");

    let out = grep(sel()).apply(three, 2).unwrap();
    assert_eq!((out.matches, out.matches_shown), (Some(3), 2));
}

#[test]
fn a_limit_of_matches_cuts_the_result() {
    let s = LogSelect {
        grep: Some("a".into()),
        max_matches: Some(1),
        ..sel()
    };
    let out = s.apply("a\na\n", 500).unwrap();
    assert_eq!(out.text, "a\n");
    assert_eq!((out.matches, out.matches_shown, out.hidden), (Some(2), 1, 0));
    assert!(out.truncated);
    assert_eq!(
        out.notice().unwrap(),
        "... 2 line(s) match, and qex shows the first 1. Use `--max-matches N`, `--all`, or a \
         narrower pattern."
    );
}

#[test]
fn a_dollar_needs_a_stand_up_to_the_end() {
    for (pattern, line, want) in [
        ("a?b$", "ab", true),
        ("a*a$", "aaa", true),
        ("a*[ab]b?$", "aab", true),
        (".?a.?$", "aa", true),
        ("a$|b", "ba", true),
        ("a$|b", "bc", false),
        ("^a*$", "aab", false),
        ("^.*a[ab]?$", "xxaab", true),
    ] {
        let m = Matcher::new(pattern, false).unwrap();
        assert_eq!(m.matches(line), want, "{pattern} on {line}");
    }
}
