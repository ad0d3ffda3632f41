use rusty_wc::count_characters_in_content;
use rusty_wc::count_lines_in_content;
use rusty_wc::count_words_in_content;

const EXAMPLE_CONTENT_EMPTY: &str = "";
const EXAMPLE_CONTENT_WITH_FOUR_LINES: &str = "a\nb\nc\nd\n";
const EXAMPLE_CONTENT_FIVE_WORDS: &str = "this content has five words";
const EXAMPLE_CONTENT_TEN_CHARS: &str = "abcdefghij";

#[test]
fn test_count_lines_in_content() {
    assert_eq!(4, count_lines_in_content(EXAMPLE_CONTENT_WITH_FOUR_LINES));
    assert_eq!(0, count_lines_in_content(EXAMPLE_CONTENT_EMPTY));
}

#[test]
fn test_count_words_in_content() {
    assert_eq!(5, count_words_in_content(EXAMPLE_CONTENT_FIVE_WORDS));
    assert_eq!(0, count_words_in_content(EXAMPLE_CONTENT_EMPTY));
}

#[test]
fn test_count_characters_in_content() {
    assert_eq!(10, count_characters_in_content(EXAMPLE_CONTENT_TEN_CHARS));
    assert_eq!(0, count_characters_in_content(EXAMPLE_CONTENT_EMPTY));
}

#[test]
fn test_count_lines_ignores_missing_trailing_newline() {
    assert_eq!(2, count_lines_in_content("a\nb\nc"));
}

#[test]
fn test_count_characters_counts_chars_not_bytes() {
    assert_eq!(5, count_characters_in_content("h\u{e9}llo"));
}

#[test]
fn test_count_words_all_ascii_whitespace_delimiters() {
    assert_eq!(6, count_words_in_content("a b\tc\nd\re\x0bf\x0c"));
    assert_eq!(0, count_words_in_content(" \t\n\r\x0b\x0c"));
}
