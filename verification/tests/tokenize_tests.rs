use rusty_wc::tokenize;

#[test]
fn test_tokenize_splits_on_whitespace_runs() {
    let tokens = tokenize("  hello \t world\n");
    assert_eq!(tokens, vec!["hello".to_owned(), "world".to_owned()]);
}

#[test]
fn test_tokenize_emits_no_empty_token() {
    let tokens = tokenize(" \t a \r\n b \x0b\x0c c ");
    assert_eq!(tokens, vec!["a".to_owned(), "b".to_owned(), "c".to_owned()]);
    for token in tokens {
        assert!(!token.is_empty());
    }
}

#[test]
fn test_tokenize_empty_content_yields_no_tokens() {
    assert_eq!(tokenize(""), Vec::<String>::new());
    assert_eq!(tokenize(" \t\n"), Vec::<String>::new());
}

#[test]
fn test_tokenize_is_idempotent_on_identical_content() {
    let content = "one two  three\tfour";
    assert_eq!(tokenize(content), tokenize(content));
}

#[test]
fn test_tokenize_normalized_round_trip() {
    let tokens = tokenize("  a  b \t c ");
    let normalized = tokens.join(" ");
    assert_eq!(normalized, "a b c");
    assert_eq!(tokenize(&normalized), tokens);
}

#[test]
fn test_tokenize_keeps_non_ascii_whitespace_inside_words() {
    // U+00A0 is Unicode whitespace but not an ASCII delimiter.
    let tokens = tokenize("a\u{a0}b c");
    assert_eq!(tokens, vec!["a\u{a0}b".to_owned(), "c".to_owned()]);
}
