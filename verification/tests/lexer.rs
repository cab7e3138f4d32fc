use sieve_form::lexer::{tokenize, Token};

#[test]
fn tokenize_text_with_hash_comment() {
    // RFC 5228 §2.3.1 allows an optional hash comment on the text: line
    let src = "text: # optional comment\nfoo\n.\n";
    let tokens = tokenize(src).expect("should tokenize");
    assert_eq!(tokens, vec![Token::StringLit("foo".into())]);
}

#[test]
fn tokenize_basic() {
    let src = r#"if header :contains "Subject" "test" { keep; }"#;
    let tokens = tokenize(src).expect("tokenize failed");
    assert_eq!(
        tokens,
        vec![
            Token::Word("if".into()),
            Token::Word("header".into()),
            Token::Tag("contains".into()),
            Token::StringLit("Subject".into()),
            Token::StringLit("test".into()),
            Token::LBrace,
            Token::Word("keep".into()),
            Token::Semicolon,
            Token::RBrace,
        ]
    );
}

#[test]
fn tokenize_number_multipliers() {
    let tokens = tokenize("1K 2M").expect("tokenize failed");
    assert_eq!(tokens, vec![Token::Number(1024), Token::Number(2 * 1024 * 1024)]);
}

#[test]
fn tokenize_quoted_string_escapes() {
    // Source: "hello \"world\""
    let tokens = tokenize(r#""hello \"world\"""#).expect("tokenize failed");
    assert_eq!(tokens, vec![Token::StringLit("hello \"world\"".into())]);
}

#[test]
fn tokenize_line_comment_skipped() {
    let src = "keep # this is a comment\n;";
    let tokens = tokenize(src).expect("tokenize failed");
    assert_eq!(tokens, vec![Token::Word("keep".into()), Token::Semicolon]);
}

#[test]
fn tokenize_block_comment_skipped() {
    let src = "keep /* ignore this */ ;";
    let tokens = tokenize(src).expect("tokenize failed");
    assert_eq!(tokens, vec![Token::Word("keep".into()), Token::Semicolon]);
}

#[test]
fn parse_multiline_string() {
    // RFC 5228 §2.3.1 multiline literal: text:\nfoo\n.\n
    let src = "text:\nfoo\n.\n";
    let tokens = tokenize(src).expect("tokenize failed");
    assert_eq!(tokens, vec![Token::StringLit("foo".into())]);
}

#[test]
fn tokenize_giga_multiplier_and_punctuation() {
    let tokens = tokenize("3G [\"a\", \"b\"] (x)").expect("tokenize failed");
    assert_eq!(
        tokens,
        vec![
            Token::Number(3 * 1024 * 1024 * 1024),
            Token::LBracket,
            Token::StringLit("a".into()),
            Token::Comma,
            Token::StringLit("b".into()),
            Token::RBracket,
            Token::LParen,
            Token::Word("x".into()),
            Token::RParen,
        ]
    );
}

#[test]
fn tokenize_error_has_position() {
    let err = tokenize("keep;\n  @").unwrap_err();
    assert_eq!(err.line, Some(2));
    assert_eq!(err.col, Some(3));
    assert!(err.message.contains('@'), "message: {}", err.message);
}

#[test]
fn tokenize_multiline_dot_stuffing() {
    // A line starting with ".." stands for a line starting with ".".
    let tokens = tokenize("text:\n..x\ny\n.\n").expect("tokenize failed");
    assert_eq!(tokens, vec![Token::StringLit(".x\ny".into())]);
}
