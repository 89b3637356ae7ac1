use pmmlruntime::text::tokenize;

#[test]
fn text_tokenization() {
    let toks = tokenize("Hello, WORLD! foo-bar");
    assert_eq!(toks, vec!["hello", "world", "foo", "bar"]);
}

#[test]
fn tokenize_empty_and_separators_only() {
    assert!(tokenize("").is_empty());
    assert!(tokenize("  ,;-!  ").is_empty());
}

#[test]
fn tokenize_keeps_digits_and_unicode_letters() {
    assert_eq!(tokenize("Äpfel 42x"), vec!["äpfel", "42x"]);
}

#[test]
fn tokenize_trailing_token_is_kept() {
    assert_eq!(tokenize("a--B"), vec!["a", "b"]);
}

#[test]
fn tokens_are_nonempty_alphanumeric() {
    for t in tokenize("x, yy;;  zzz!?") {
        assert!(!t.is_empty());
        assert!(t.chars().all(|c| c.is_alphanumeric()));
    }
}
