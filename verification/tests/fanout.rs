use qex::fanout::{
    check_command, check_count, count_placeholders, cut, job_name, parse, read, scan, slug,
    substitute, unreadable, MAX_NAME,
};

fn args(list: &[&str]) -> Vec<String> {
    list.iter().map(|s| s.to_string()).collect()
}

/// The line goes inside one argument, and it never divides it.
#[test]
fn a_line_with_shell_characters_stays_one_argument() {
    let out = substitute(&args(&["./p", "{}"]), "a b\"; rm -rf ~; echo $HOME");
    assert_eq!(out.len(), 2);
    assert_eq!(out[1], "a b\"; rm -rf ~; echo $HOME");
}

#[test]
fn a_line_with_a_newline_stays_one_argument() {
    let out = substitute(&args(&["./p", "{}"]), "one\ntwo");
    assert_eq!(out, vec!["./p".to_string(), "one\ntwo".to_string()]);
}

#[test]
fn the_place_can_be_the_program_or_a_part_of_an_argument() {
    let out = substitute(&args(&["./{}.sh", "--out={}.log", "-v"]), "run");
    assert_eq!(out, args(&["./run.sh", "--out=run.log", "-v"]));
}

#[test]
fn every_place_takes_the_line() {
    let out = substitute(&args(&["cp", "{}", "{}.bak"]), "a.txt");
    assert_eq!(out, args(&["cp", "a.txt", "a.txt.bak"]));
    assert_eq!(count_placeholders(&args(&["cp", "{}", "{}.bak"])), 2);
}

#[test]
fn the_escape_gives_a_literal_placeholder() {
    let command = args(&["jq", "{{}}", "{}"]);
    assert_eq!(count_placeholders(&command), 1);
    assert_eq!(
        substitute(&command, "a.json"),
        args(&["jq", "{}", "a.json"])
    );
}

#[test]
fn a_brace_that_is_not_a_place_does_not_change() {
    let command = args(&["fmt", "--style={indent: 2}", "{}"]);
    assert_eq!(count_placeholders(&command), 1);
    assert_eq!(
        substitute(&command, "x"),
        args(&["fmt", "--style={indent: 2}", "x"])
    );
}

#[test]
fn a_command_with_no_place_is_refused() {
    let err = check_command(&args(&["./process", "input"]))
        .unwrap_err()
        .to_string();
    assert!(err.contains("holds no `{}`"), "got: {err}");
    assert!(err.contains("--each-line"), "the error must say what to do");
    // The escape alone is not a place.
    assert!(check_command(&args(&["echo", "{{}}"])).is_err());
    assert!(check_command(&args(&["echo", "{}"])).is_ok());
    assert!(check_command(&Vec::new()).is_err());
}

#[test]
fn an_empty_line_and_a_comment_line_give_no_job() {
    let input = parse("one\n\n# a note\ntwo\n   \n#\nthree\n");
    assert_eq!(input.lines, vec!["one", "two", "three"]);
    assert_eq!(input.blank, 2);
    assert_eq!(input.comments, 2);
    assert_eq!(input.skipped(), 4);
}

#[test]
fn crlf_endings_and_a_missing_final_newline_give_the_same_lines() {
    assert_eq!(parse("a\r\nb\r\n").lines, vec!["a", "b"]);
    assert_eq!(parse("a\nb").lines, vec!["a", "b"]);
    assert_eq!(parse("a").lines, vec!["a"]);
    assert_eq!(parse("").lines, Vec::<String>::new());
}

#[test]
fn the_space_at_each_end_of_a_line_goes_away() {
    let input = parse("  a b  \n\tc\t\n");
    assert_eq!(input.lines, vec!["a b", "c"]);
}

#[test]
fn a_count_above_the_limit_is_refused() {
    assert!(check_count(10, 10).is_ok());
    let err = check_count(11, 10).unwrap_err().to_string();
    assert!(err.contains("--max-jobs 11"), "got: {err}");
    let err = check_count(0, 10).unwrap_err().to_string();
    assert!(err.contains("no line that gives a job"), "got: {err}");
}

#[test]
fn the_message_about_a_large_count_is_exact() {
    assert_eq!(
        check_count(2, 1).unwrap_err(),
        "the input holds 2 lines, and the limit is 1 job.\n\nEach job takes a directory in the \
         state of qex, so a very large fan-out fills the disk and makes `qex list` hard to \
         read.\n\nGive fewer lines, or raise the limit with `--max-jobs 2`."
    );
}

#[test]
fn a_job_name_holds_the_position_and_the_line() {
    assert_eq!(job_name("process", 1, 9, "a.txt"), "process-1-a.txt");
    // The width of the position is the width of the count, so the names
    // sort in the order of the file.
    assert_eq!(job_name("process", 7, 120, "a.txt"), "process-007-a.txt");

    let long = "/data/very/long/path/that/goes/on/and/on/file-000.parquet";
    let one = job_name("p", 1, 100, long);
    let two = job_name("p", 2, 100, long);
    assert_ne!(one, two);
    assert!(one.len() <= MAX_NAME, "{one} is too long");
    assert!(one.starts_with("p-001-"), "got: {one}");
}

#[test]
fn a_job_name_holds_no_control_character_from_the_file() {
    // The base and the line both hold escape sequences.
    let name = job_name(
        "\u{1b}[31mBOOM\u{1b}[0m",
        1,
        9,
        "\u{1b}[2J\u{1b}]0;title\u{7}x",
    );
    assert!(
        name.chars()
            .all(|c| c.is_ascii_alphanumeric() || c == '.' || c == '_' || c == '-'),
        "the name holds a character that must not reach a terminal: {name:?}"
    );
    assert!(!name.contains('\u{1b}'), "got: {name:?}");

    // A newline would make one row of a list into two.
    let name = job_name("a\nb", 2, 9, "c\r\nd");
    assert!(
        !name.contains('\n') && !name.contains('\r'),
        "got: {name:?}"
    );
}

#[test]
fn a_line_with_no_ordinary_character_still_gives_a_name() {
    let name = job_name("p", 3, 10, "!!! ???");
    assert_eq!(name, "p-03");
    assert!(name.parse::<uuid::Uuid>().is_err());
}

#[test]
fn a_job_name_never_has_the_form_of_an_id() {
    let name = job_name("x", 1, 1, "550e8400-e29b-41d4-a716-446655440000");
    assert!(name.parse::<uuid::Uuid>().is_err(), "got: {name}");
}

/// A position of four digits can fall on a group of an id.
#[test]
fn a_position_of_four_digits_makes_no_id() {
    let name = job_name("deadbeef", 1, 1000, "abcd-ef01-234567890123");
    assert_eq!(name, "deadbeef-0001_abcd-ef01-234567890123");
    assert!(name.parse::<uuid::Uuid>().is_err());
    let name = job_name("deadbeef-cafe", 1234, 5000, "ef01-234567890123");
    assert_eq!(name, "deadbeef-cafe-1234_ef01-234567890123");
    assert!(name.parse::<uuid::Uuid>().is_err());
    // One digit more or less makes a name that nobody reads as an id.
    let name = job_name("deadbeef", 1, 100, "abcd-ef01-234567890123");
    assert_eq!(name, "deadbeef-001-abcd-ef01-234567890123");
}

#[test]
fn the_names_of_a_fan_out_sort_in_the_order_of_the_file() {
    let names: Vec<String> = (1..=12).map(|i| job_name("p", i, 12, "same")).collect();
    let mut sorted = names.clone();
    sorted.sort();
    assert_eq!(names, sorted);
}

#[test]
fn every_line_is_a_job_or_is_counted() {
    let text = "a\n\n#x\nb\r\n  \n";
    let input = parse(text);
    assert_eq!(
        input.lines.len() + input.blank + input.comments,
        text.lines().count()
    );
}

#[test]
fn a_slug_has_one_dash_between_its_words() {
    assert_eq!(slug("--a/ b!!c--"), "a-b-c");
    assert_eq!(slug("é.x_1"), ".x_1");
    assert_eq!(slug(""), "");
    assert_eq!(cut("ab--cd", 4), "ab");
    assert_eq!(cut("abcd", 4), "abcd");
}

#[test]
fn an_input_that_is_not_text_names_the_line() {
    let input = read("-", b"a\nb\n").unwrap();
    assert_eq!(input.lines, vec!["a", "b"]);
    let err = read("in.txt", b"a\nb\n\xff\n").unwrap_err();
    assert_eq!(
        err,
        "the input file in.txt is not UTF-8 text. The first incorrect byte is on line 3.\n\n\
         The command of a job is text, so qex cannot run that line, and qex submits no job at \
         all.\n\nCorrect line 3, or write the file again with UTF-8."
    );
    let err = read("-", b"\xc3").unwrap_err();
    assert!(err.starts_with("the input from standard input is not UTF-8 text"));
    assert!(err.contains("on line 1."));
}

#[test]
fn an_input_that_cannot_be_read_says_what_to_do() {
    assert!(unreadable("-", "closed")
        .starts_with("qex cannot read the lines from standard input: closed\n\n`--each-line -`"));
    assert!(unreadable("x", "gone").starts_with("qex cannot read the input file x: gone\n\n"));
}

#[test]
fn an_argument_gives_its_text_and_its_places() {
    assert_eq!(scan("--out={}.log", "x"), ("--out=x.log".to_string(), 1));
    assert_eq!(scan("{}{}", "ab"), ("abab".to_string(), 2));
    assert_eq!(scan("{{}}", "x"), ("{}".to_string(), 0));
    // A line that holds the mark gives no second place.
    assert_eq!(scan("{}", "{}"), ("{}".to_string(), 1));
    assert_eq!(scan("plain", "x"), ("plain".to_string(), 0));
}

#[test]
fn the_line_ends_of_a_file_change_nothing() {
    let text = "a\n\n# note\n  b c\nlast";
    let plain = parse(text);
    assert_eq!(plain.lines, vec!["a", "b c", "last"]);
    assert_eq!((plain.blank, plain.comments), (1, 1));
    for other in [text.replace('\n', "\r\n"), format!("{text}\n")] {
        let input = parse(&other);
        assert_eq!(input.lines, plain.lines);
        assert_eq!((input.blank, input.comments), (plain.blank, plain.comments));
    }
}
