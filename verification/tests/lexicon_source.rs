use chamkho::dict::split_words;

fn chars_of(s: &str) -> Vec<char> {
    s.chars().collect()
}

fn words_of(s: &str) -> Vec<String> {
    split_words(&chars_of(s)).iter().map(|w| w.iter().collect()).collect()
}

#[test]
fn one_word_per_line() {
    assert_eq!(words_of("a\nab\nabc"), vec!["a", "ab", "abc"]);
}

#[test]
fn trailing_newline_keeps_an_empty_entry() {
    assert_eq!(words_of("a\n"), vec!["a", ""]);
}

#[test]
fn empty_source_is_one_empty_entry() {
    assert_eq!(words_of(""), vec![""]);
}

#[test]
fn blank_lines_are_kept() {
    assert_eq!(words_of("a\n\nb"), vec!["a", "", "b"]);
}
