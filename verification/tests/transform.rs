use text_justify::transform;
use text_justify::try_transform;

#[test]
fn simple() {
    let test_cases = [
        ("", 5, ""),
        ("test", 5, "test "),
        ("Lorem ipsum dolor sit amet consectetur adipiscing elit sed do eiusmod tempor incididunt ut labore et dolore magna aliqua", 12,
         "Lorem  ipsum\ndolor    sit\namet        \nconsectetur \nadipiscing  \nelit  sed do\neiusmod     \ntempor      \nincididunt  \nut labore et\ndolore magna\naliqua      "),
        ("Lorem     ipsum    dolor", 17, "Lorem ipsum dolor"),
        ("Lorem     ipsum    dolor", 3, ""),
    ];

    for &(input, line_width, expected) in &test_cases {
        println!("input: '{}'", input);
        assert_eq!(transform(input, line_width), expected);
    }
}

#[test]
fn single_word_trailing_padding() {
    assert_eq!(transform("test", 5), "test ");
}

#[test]
fn word_of_exactly_the_width() {
    assert_eq!(transform("abcde", 5), "abcde");
}

#[test]
fn collapses_whitespace_runs() {
    assert_eq!(transform("Lorem     ipsum    dolor", 17), "Lorem ipsum dolor");
}

#[test]
fn left_biased_remainder() {
    // diff = 5 over 2 gaps: the first gap takes 3 spaces, the second 2
    assert_eq!(transform("a b c", 8), "a   b  c");
}

#[test]
fn empty_and_whitespace_only_input() {
    assert_eq!(transform("", 5), "");
    assert_eq!(transform(" \t\n  ", 10), "");
    assert_eq!(transform("", 0), "");
}

#[test]
fn oversize_word_yields_empty() {
    assert_eq!(transform("Lorem     ipsum    dolor", 3), "");
    assert_eq!(transform("a", 0), "");
}

#[test]
fn try_transform_reports_the_offending_word() {
    assert_eq!(try_transform("Lorem ipsum dolor", 4), Err("Lorem"));
    assert_eq!(try_transform("ab cdef", 3), Err("cdef"));
    assert_eq!(try_transform("test", 5), Ok(String::from("test ")));
    assert_eq!(try_transform("", 5), Ok(String::from("")));
}

#[test]
fn every_line_has_the_target_width() {
    let out = transform("Lorem ipsum dolor sit amet", 10);
    assert_eq!(out, "Lorem     \nipsum     \ndolor  sit\namet      ");
    assert!(!out.is_empty());
    for line in out.split('\n') {
        assert_eq!(line.chars().count(), 10);
    }
}

#[test]
fn words_round_trip_through_the_output() {
    let input = "one two three four five six seven";
    let out = transform(input, 9);
    let before: Vec<&str> = input.split_whitespace().collect();
    let after: Vec<&str> = out.split_whitespace().collect();
    assert_eq!(before, after);
}

#[test]
fn transform_is_idempotent_at_the_same_width() {
    let once = transform("Lorem ipsum dolor sit amet", 11);
    assert_eq!(once, "Lorem ipsum\ndolor   sit\namet       ");
    assert_eq!(transform(&once, 11), once);
}

#[test]
fn width_counts_characters_not_bytes() {
    assert_eq!(transform("h\u{e9}llo", 5), "h\u{e9}llo");
}
