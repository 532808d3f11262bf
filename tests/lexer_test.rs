use md_parser::lexer::{classify, Token, TokenType};

fn kinds_and_values(tokens: &[Token]) -> Vec<(TokenType, String)> {
    tokens
        .iter()
        .map(|t| (t.token_type, t.value.clone()))
        .collect()
}

fn one(kind: TokenType, value: &str) -> Vec<(TokenType, String)> {
    vec![(kind, value.to_string())]
}

#[test]
fn empty_line_is_a_suffix() {
    let toks = classify("a\n\nb");
    assert_eq!(
        kinds_and_values(&toks),
        vec![
            (TokenType::Literal, "a".to_string()),
            (TokenType::Suffix, "empty_line".to_string()),
            (TokenType::Literal, "b".to_string()),
        ]
    );
}

#[test]
fn setext_underlines() {
    assert_eq!(kinds_and_values(&classify("===")), one(TokenType::Suffix, "h1"));
    assert_eq!(kinds_and_values(&classify("-")), one(TokenType::Suffix, "h2"));
    assert_eq!(kinds_and_values(&classify("=-")), one(TokenType::Literal, "=-"));
}

#[test]
fn table_separator_line() {
    assert_eq!(kinds_and_values(&classify("---|---")), one(TokenType::Suffix, "table"));
    assert_eq!(kinds_and_values(&classify("|")), one(TokenType::Suffix, "table"));
}

#[test]
fn atx_heading_prefix() {
    assert_eq!(
        kinds_and_values(&classify("## Two words")),
        vec![
            (TokenType::Prefix, "h2".to_string()),
            (TokenType::Literal, "Two words".to_string()),
        ]
    );
    assert_eq!(
        kinds_and_values(&classify("  ###\t  Deep  ")),
        vec![
            (TokenType::Prefix, "h3".to_string()),
            (TokenType::Literal, "Deep  ".to_string()),
        ]
    );
}

#[test]
fn atx_marker_needs_a_second_word_and_at_most_six() {
    assert_eq!(kinds_and_values(&classify("#")), one(TokenType::Literal, "#"));
    assert_eq!(kinds_and_values(&classify("# ")), one(TokenType::Literal, "# "));
    assert_eq!(
        kinds_and_values(&classify("####### x")),
        one(TokenType::Literal, "####### x")
    );
    assert_eq!(
        kinds_and_values(&classify("#a title")),
        one(TokenType::Literal, "#a title")
    );
    assert_eq!(
        kinds_and_values(&classify("###### six")),
        vec![
            (TokenType::Prefix, "h6".to_string()),
            (TokenType::Literal, "six".to_string()),
        ]
    );
}

#[test]
fn lines_and_line_breaks() {
    assert!(classify("").is_empty());
    assert_eq!(kinds_and_values(&classify("x\n")), one(TokenType::Literal, "x"));
    assert_eq!(
        kinds_and_values(&classify("x\r\ny\r\n")),
        vec![
            (TokenType::Literal, "x".to_string()),
            (TokenType::Literal, "y".to_string()),
        ]
    );
    assert_eq!(
        kinds_and_values(&classify("\n")),
        one(TokenType::Suffix, "empty_line")
    );
}

#[test]
fn whitespace_line_is_literal() {
    assert_eq!(kinds_and_values(&classify("   ")), one(TokenType::Literal, "   "));
}
