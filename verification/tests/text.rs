use fuzzit::text::{
    chars_of, contains_chars, copy_range, find_from, matches_at, same_chars, split_lines,
    starts_with, string_of,
};

fn chars(s: &str) -> Vec<char> {
    s.chars().collect()
}

fn lines_of(s: &str) -> Vec<String> {
    split_lines(&chars(s)).iter().map(|l| l.iter().collect()).collect()
}

#[test]
fn chars_and_back() {
    assert_eq!(chars_of("héllo"), vec!['h', 'é', 'l', 'l', 'o']);
    assert_eq!(string_of(&['a', 'ß', 'c']), "aßc");
    assert_eq!(string_of(&chars_of("")), "");
}

#[test]
fn copy_range_takes_the_middle() {
    assert_eq!(copy_range(&chars("abcdef"), 2, 4), vec!['c', 'd']);
    assert_eq!(copy_range(&chars("abcdef"), 3, 3), Vec::<char>::new());
}

#[test]
fn find_from_stops_at_the_first() {
    assert_eq!(find_from(&chars("a/b/c"), 0, '/'), 1);
    assert_eq!(find_from(&chars("a/b/c"), 2, '/'), 3);
    assert_eq!(find_from(&chars("a/b/c"), 4, '/'), 5);
    assert_eq!(find_from(&chars(""), 0, '/'), 0);
}

#[test]
fn matches_at_checks_the_place() {
    assert!(matches_at(&chars("hello"), &chars("ll"), 2));
    assert!(!matches_at(&chars("hello"), &chars("ll"), 3));
    assert!(!matches_at(&chars("hello"), &chars("lo!"), 3));
    assert!(matches_at(&chars("hello"), &chars(""), 5));
    assert!(!matches_at(&chars("hello"), &chars(""), 6));
}

#[test]
fn same_chars_compares_all() {
    assert!(same_chars(&chars("abc"), &chars("abc")));
    assert!(!same_chars(&chars("abc"), &chars("abd")));
    assert!(!same_chars(&chars("abc"), &chars("ab")));
    assert!(same_chars(&chars(""), &chars("")));
}

#[test]
fn starts_with_prefixes() {
    assert!(starts_with(&chars("diff --git a b"), &chars("diff --git")));
    assert!(!starts_with(&chars("dif"), &chars("diff")));
    assert!(starts_with(&chars("x"), &chars("")));
}

#[test]
fn contains_finds_a_phrase_anywhere() {
    assert!(contains_chars(&chars("On branch main\nnothing to commit"), &chars("nothing to commit")));
    assert!(contains_chars(&chars("abc"), &chars("abc")));
    assert!(contains_chars(&chars("abc"), &chars("c")));
    assert!(!contains_chars(&chars("abc"), &chars("abcd")));
    assert!(!contains_chars(&chars("abc"), &chars("ca")));
    assert!(contains_chars(&chars(""), &chars("")));
    assert!(contains_chars(&chars("Your branch is ahead of 'origin/main'"), &chars("branch is ahead")));
    assert!(!contains_chars(&chars("up to date"), &chars("diverged")));
}

#[test]
fn lines_split_at_line_feeds() {
    assert_eq!(lines_of("a\nb\nc"), vec!["a", "b", "c"]);
    assert_eq!(lines_of("a\nb\n"), vec!["a", "b"]);
    assert_eq!(lines_of(""), Vec::<String>::new());
    assert_eq!(lines_of("\n"), vec![""]);
    assert_eq!(lines_of("a\n\nb"), vec!["a", "", "b"]);
}

#[test]
fn lines_drop_a_carriage_return_before_a_line_feed() {
    assert_eq!(lines_of("a\r\nb\r\n"), vec!["a", "b"]);
    assert_eq!(lines_of("a\r\r\nb"), vec!["a\r", "b"]);
    assert_eq!(lines_of("a\nb\r"), vec!["a", "b\r"]);
    assert_eq!(lines_of("\r\n"), vec![""]);
}

#[test]
fn lines_agree_with_std() {
    for text in ["", "x", "x\n", "\n\n", "a\r\nb", "a\rb\n", "one\ntwo\r\n\r\nthree\r", "\r"] {
        let expected: Vec<String> = text.lines().map(|l| l.to_string()).collect();
        assert_eq!(lines_of(text), expected, "text {:?}", text);
    }
}
