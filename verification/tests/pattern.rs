use linesearch::decimal::decimal_text;
use linesearch::highlight::{highlight_regex, paint};
use linesearch::pattern::Pattern;
use linesearch::scan::scan;
use regex::{Captures, Regex};

fn lines(texts: &[&str]) -> Vec<String> {
    texts.iter().map(|t| t.to_string()).collect()
}

/// What `Regex::replace_all` makes of the line when every match is wrapped
/// in red.
fn replaced(source: &str, line: &str) -> String {
    Regex::new(source)
        .unwrap()
        .replace_all(line, |caps: &Captures| format!("\x1b[31m{}\x1b[0m", &caps[0]))
        .to_string()
}

#[test]
fn pattern_keeps_its_source() {
    let pattern = Pattern::new("be+ta", false).unwrap();
    assert_eq!(pattern.source(), "be+ta");
}

#[test]
fn pattern_that_ignores_case_carries_the_flag() {
    let pattern = Pattern::new("BETA", true).unwrap();
    assert_eq!(pattern.source(), "(?i)BETA");
    assert_eq!(scan(&lines(&["alpha", "beta", "Beta", "BETA"]), &pattern), vec![1, 2, 3]);
}

#[test]
fn pattern_that_minds_case_does_not_match_other_case() {
    let pattern = Pattern::new("BETA", false).unwrap();
    assert_eq!(scan(&lines(&["alpha", "beta", "Beta", "BETA"]), &pattern), vec![3]);
}

#[test]
fn pattern_with_bad_syntax_is_refused() {
    let refused = Pattern::new("foo(bar", false);
    assert!(refused.is_err());
    assert!(!refused.unwrap_err().message.is_empty());
    assert!(Pattern::new("foo(bar", true).is_err());
}

#[test]
fn scan_finds_the_matching_lines_in_order() {
    let pattern = Pattern::new("ta$", false).unwrap();
    assert_eq!(scan(&lines(&["alpha", "beta", "gamma", "delta"]), &pattern), vec![1, 3]);
}

#[test]
fn scan_of_no_lines_finds_nothing() {
    let pattern = Pattern::new(".*", false).unwrap();
    assert_eq!(scan(&Vec::new(), &pattern), Vec::<usize>::new());
}

#[test]
fn scan_tests_every_line_on_its_own() {
    // a match never runs from one line into the next
    let pattern = Pattern::new("a\\s*b", false).unwrap();
    assert_eq!(scan(&lines(&["a", "b", "a b", "ab"]), &pattern), vec![2, 3]);
    let all = Pattern::new("", false).unwrap();
    assert_eq!(scan(&lines(&["", "x", ""]), &all), vec![0, 1, 2]);
}

#[test]
fn paint_wraps_each_span() {
    assert_eq!(paint("alpha beta", &vec![(6, 10)]), "alpha \x1b[31mbeta\x1b[0m");
    assert_eq!(
        paint("abcabc", &vec![(0, 1), (3, 4)]),
        "\x1b[31ma\x1b[0mbc\x1b[31ma\x1b[0mbc"
    );
    assert_eq!(paint("abc", &vec![(0, 3)]), "\x1b[31mabc\x1b[0m");
}

#[test]
fn paint_without_spans_changes_nothing() {
    assert_eq!(paint("alpha beta", &vec![]), "alpha beta");
    assert_eq!(paint("", &vec![]), "");
}

#[test]
fn paint_wraps_empty_spans_too() {
    assert_eq!(paint("ab", &vec![(1, 1)]), "a\x1b[31m\x1b[0mb");
    assert_eq!(paint("", &vec![(0, 0)]), "\x1b[31m\x1b[0m");
}

#[test]
fn paint_counts_in_bytes() {
    // 'é' takes two bytes, 'ß' two, '€' three
    assert_eq!(paint("é€ß", &vec![(2, 5)]), "é\x1b[31m€\x1b[0mß");
    assert_eq!(paint("é€ß", &vec![(0, 2), (5, 7)]), "\x1b[31mé\x1b[0m€\x1b[31mß\x1b[0m");
}

#[test]
fn highlight_wraps_every_match() {
    let pattern = Pattern::new("a", false).unwrap();
    assert_eq!(
        highlight_regex("banana", &pattern, true),
        "b\x1b[31ma\x1b[0mn\x1b[31ma\x1b[0mn\x1b[31ma\x1b[0m"
    );
}

#[test]
fn highlight_without_color_changes_nothing() {
    let pattern = Pattern::new("a", false).unwrap();
    assert_eq!(highlight_regex("banana", &pattern, false), "banana");
}

#[test]
fn highlight_without_a_match_changes_nothing() {
    let pattern = Pattern::new("x", false).unwrap();
    assert_eq!(highlight_regex("banana", &pattern, true), "banana");
}

#[test]
fn highlight_takes_the_longest_run_once() {
    let pattern = Pattern::new("an+", false).unwrap();
    assert_eq!(highlight_regex("bannana", &pattern, true), "b\x1b[31mann\x1b[0m\x1b[31man\x1b[0ma");
}

#[test]
fn highlight_is_what_replacing_every_match_gives() {
    let cases = [
        ("a", "banana"),
        ("an", "banana bandana"),
        ("x*", "ab"),
        ("", "héllo"),
        ("\\b", "one two"),
        ("[äöü]+", "Grüße aus Köln, äöü"),
        ("(?i)STRASSE", "Straße strasse STRASSE"),
        ("\\w+", "€uro 100, ¥en 200"),
        ("^", "start"),
        ("$", "end"),
        ("a|", "baab"),
        (".", "日本語"),
    ];
    for (source, line) in cases {
        let pattern = Pattern::new(source, false).unwrap();
        assert_eq!(highlight_regex(line, &pattern, true), replaced(source, line));
    }
}

#[test]
fn decimal_text_writes_the_digits() {
    assert_eq!(decimal_text(0), "0");
    assert_eq!(decimal_text(7), "7");
    assert_eq!(decimal_text(10), "10");
    assert_eq!(decimal_text(1234567890), "1234567890");
    assert_eq!(decimal_text(usize::MAX), usize::MAX.to_string());
}

#[test]
fn pattern_too_big_is_refused() {
    // valid syntax, but more than the compiler takes by default
    let refused = Pattern::new("\\w{1000}", false);
    assert!(refused.is_err());
    assert!(!refused.unwrap_err().message.is_empty());
    assert!(Pattern::new("(?-u:\\w){1000}", false).is_ok());
}

#[test]
fn pattern_is_made_of_every_source_that_compiles() {
    for source in ["", "a", "a|b", "^x+$", "[äöü]+", "\\bword\\b", "(a)(b)?", "a{2,3}", "\\p{Greek}"] {
        for ignore_case in [false, true] {
            let made = Pattern::new(source, ignore_case);
            assert_eq!(made.is_ok(), Regex::new(source).is_ok());
            assert!(made.is_ok());
        }
    }
    for source in ["(", "a)", "[a", "a{2", "*", "\\", "(?z)"] {
        for ignore_case in [false, true] {
            assert!(Regex::new(source).is_err());
            assert!(Pattern::new(source, ignore_case).is_err());
        }
    }
}

#[test]
fn highlight_adds_nine_bytes_for_every_match() {
    let cases = [
        ("a", "banana"),
        ("x", "banana"),
        ("x*", "ab"),
        ("[äöü]+", "Grüße aus Köln, äöü"),
        (".", "日本語"),
        ("\\w+", "€uro 100, ¥en 200"),
    ];
    for (source, line) in cases {
        let pattern = Pattern::new(source, false).unwrap();
        let found = Regex::new(source).unwrap().find_iter(line).count();
        let out = highlight_regex(line, &pattern, true);
        assert_eq!(out.len(), line.len() + 9 * found);
        assert_eq!(out.chars().count(), line.chars().count() + 9 * found);
    }
}

#[test]
fn highlight_with_the_color_taken_out_is_the_line() {
    let cases = [
        ("a", "banana"),
        ("an", "banana bandana"),
        ("x*", "ab"),
        ("", "héllo"),
        ("[äöü]+", "Grüße aus Köln, äöü"),
        (".", "日本語"),
        ("0|3|1m|\\[", "m[31m [0m 0 3"),
    ];
    for (source, line) in cases {
        let pattern = Pattern::new(source, false).unwrap();
        let out = highlight_regex(line, &pattern, true);
        assert_eq!(out.replace("\x1b[31m", "").replace("\x1b[0m", ""), line);
    }
}

#[test]
fn highlight_puts_each_match_between_the_colors() {
    let cases = [("an+", "bannana and ananas"), ("[äöü]+", "Grüße aus Köln, äöü"), ("\\d+", "1 22 333")];
    for (source, line) in cases {
        let pattern = Pattern::new(source, false).unwrap();
        let out = highlight_regex(line, &pattern, true);
        let wrapped: Vec<&str> = out
            .split("\x1b[31m")
            .skip(1)
            .map(|piece| piece.split("\x1b[0m").next().unwrap())
            .collect();
        let found: Vec<&str> = Regex::new(source).unwrap().find_iter(line).map(|m| m.as_str()).collect();
        assert_eq!(wrapped, found);
    }
}
