use rorthi::tokenizer::split;

#[test]
fn quoted_span_is_one_token() {
    let tokens = split("a \"b c\" d");
    assert_eq!(tokens, vec!["a".to_string(), "\"b c\"".to_string(), "d".to_string()]);
}

#[test]
fn empty_input_has_no_tokens() {
    let tokens = split("");
    assert!(tokens.is_empty());
}

#[test]
fn all_whitespace_has_no_tokens() {
    let tokens = split("  \t \n  ");
    assert!(tokens.is_empty());
}

#[test]
fn mixed_whitespace_separates_tokens() {
    let tokens = split("a\tb\nc  d");
    assert_eq!(tokens, vec!["a".to_string(), "b".to_string(), "c".to_string(), "d".to_string()]);
}

#[test]
fn trailing_token_is_emitted() {
    let tokens = split("ab cd");
    assert_eq!(tokens, vec!["ab".to_string(), "cd".to_string()]);
}

#[test]
fn empty_string_literal() {
    let tokens = split("\"\"");
    assert_eq!(tokens, vec!["\"\"".to_string()]);
}

#[test]
fn unterminated_string_is_flushed_at_end() {
    let tokens = split("x \"ab");
    assert_eq!(tokens, vec!["x".to_string(), "\"ab".to_string()]);
}

#[test]
fn quote_closes_token_immediately() {
    let tokens = split("\"a\"b");
    assert_eq!(tokens, vec!["\"a\"".to_string(), "b".to_string()]);
}
