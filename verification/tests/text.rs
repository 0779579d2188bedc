use qex::text;

const SAMPLES: [&str; 12] = [
    "",
    " ",
    "plain",
    "  two  words \t",
    "a\nb\r\nc",
    "a\n\nb\n",
    "\r\n",
    "x\ry",
    "\u{2003}wide\u{3000}",
    "Ünï CODE",
    "a,b,,c,",
    "aaaa",
];

#[test]
fn the_characters_have_the_classes_of_the_standard_library() {
    for c in (0..=0x10_ffffu32).filter_map(char::from_u32) {
        assert_eq!(text::is_white(c), c.is_whitespace(), "{c:?}");
        assert_eq!(text::is_control(c), c.is_control(), "{c:?}");
        assert_eq!(text::to_small(c), c.to_ascii_lowercase(), "{c:?}");
        assert_eq!(text::to_capital(c), c.to_ascii_uppercase(), "{c:?}");
    }
}

#[test]
fn a_text_is_cut_as_the_standard_library_cuts_it() {
    for s in SAMPLES {
        assert_eq!(text::trim(s), s.trim(), "{s:?}");
        assert_eq!(text::lower(s), s.to_ascii_lowercase(), "{s:?}");
        assert_eq!(text::upper(s), s.to_ascii_uppercase(), "{s:?}");
        assert_eq!(text::lines(s), s.lines().collect::<Vec<_>>(), "{s:?}");
        assert_eq!(text::split(s, ','), s.split(',').collect::<Vec<_>>(), "{s:?}");
        for t in ["a", "aa", "\n", "words"] {
            assert_eq!(text::replace(s, t, "-"), s.replace(t, "-"), "{s:?} {t:?}");
            assert_eq!(text::starts_with(s, t), s.starts_with(t), "{s:?} {t:?}");
            assert_eq!(text::ends_with(s, t), s.ends_with(t), "{s:?} {t:?}");
        }
        for t in SAMPLES {
            assert_eq!(text::is_before(s, t), s < t, "{s:?} {t:?}");
            assert_eq!(text::same(s, t), s == t, "{s:?} {t:?}");
        }
    }
}

#[test]
fn a_number_is_read_as_the_standard_library_reads_it() {
    for s in [
        "", "0", "7", "+7", "-7", "007", "255", "256", "4294967295", "4294967296", "1 ", " 1",
        "+", "1_0", "0x1", "18446744073709551615", "18446744073709551616",
    ] {
        assert_eq!(
            text::parse_number(s, u32::MAX as u64),
            s.parse::<u32>().ok().map(u64::from),
            "{s:?}"
        );
        assert_eq!(text::parse_number(s, u64::MAX), s.parse::<u64>().ok(), "{s:?}");
    }
}

#[test]
fn a_number_is_written_as_the_standard_library_writes_it() {
    for n in [0u64, 1, 9, 10, 99, 100, 12345, u64::MAX] {
        assert_eq!(text::decimal(n), n.to_string());
    }
    for n in [0i64, -1, 1, i64::MAX, i64::MIN + 1, -40] {
        assert_eq!(text::signed_decimal(n), n.to_string());
    }
    assert_eq!(text::pad_left("7", '0', 3), "007");
    assert_eq!(text::pad_left("1234", '0', 3), "1234");
    assert_eq!(text::join(&vec!["a".into(), "b".into()], ", "), "a, b");
    assert_eq!(text::join(&Vec::new(), ", "), "");
}
