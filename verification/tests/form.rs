use sieve_form::form::{read_script, Form};
use sieve_form::lexer::tokenize;

#[test]
fn parse_script_simple_if() {
    let src = r#"if header :contains "Subject" "x" { keep; }"#;
    let tokens = tokenize(src).expect("tokenize failed");
    let script = read_script(&tokens).expect("read_script failed");
    assert_eq!(script.len(), 1, "expected exactly 1 top-level statement");
    let stmt = &script[0];
    assert!(matches!(&stmt[0], Form::Word(w) if w == "if"));
    assert!(matches!(&stmt[1], Form::Word(w) if w == "header"));
    assert!(matches!(&stmt[2], Form::Tag(t) if t == "contains"));
    assert!(matches!(&stmt[3], Form::Str(s) if s == "Subject"));
    assert!(matches!(&stmt[4], Form::Str(s) if s == "x"));
    assert!(matches!(&stmt[5], Form::Block(_)));
    if let Form::Block(block) = &stmt[5] {
        assert_eq!(block.len(), 1);
        assert!(matches!(&block[0][0], Form::Word(w) if w == "keep"));
    }
}

#[test]
fn parse_error_unclosed_brace() {
    let src = "if true {";
    let tokens = tokenize(src).expect("tokenize failed");
    let result = read_script(&tokens);
    assert!(result.is_err(), "expected ParseError for unclosed brace");
    let err = result.unwrap_err();
    assert!(
        err.message.contains("unclosed") || err.message.contains("missing"),
        "unexpected error message: {}",
        err.message
    );
}

#[test]
fn parse_require() {
    let src = r#"require ["fileinto", "reject"];"#;
    let tokens = tokenize(src).expect("tokenize failed");
    let script = read_script(&tokens).expect("read_script failed");
    assert_eq!(script.len(), 1);
    let stmt = &script[0];
    assert!(matches!(&stmt[0], Form::Word(w) if w == "require"));
    assert!(
        matches!(&stmt[1], Form::StringList(v) if v == &["fileinto", "reject"]),
        "expected StringList([\"fileinto\", \"reject\"]), got {:?}",
        &stmt[1]
    );
}

#[test]
fn parse_if_elsif_else_is_one_statement() {
    let tokens = tokenize("if true { keep; } elsif false { discard; } else { stop; } keep;").unwrap();
    let script = read_script(&tokens).unwrap();
    assert_eq!(script.len(), 2);
    assert_eq!(script[0].len(), 8);
    assert!(matches!(&script[0][3], Form::Word(w) if w == "elsif"));
    assert!(matches!(&script[0][6], Form::Word(w) if w == "else"));
    assert_eq!(script[1], vec![Form::Word("keep".into())]);
}

#[test]
fn parse_test_list_and_empty_string_list() {
    let tokens = tokenize("if anyof (exists [], true) { keep; }").unwrap();
    let script = read_script(&tokens).unwrap();
    match &script[0][2] {
        Form::TestList(tests) => {
            assert_eq!(tests.len(), 2);
            assert_eq!(tests[0], vec![Form::Word("exists".into()), Form::StringList(vec![])]);
            assert_eq!(tests[1], vec![Form::Word("true".into())]);
        }
        other => panic!("expected a test list, got {:?}", other),
    }
}

#[test]
fn parse_errors_have_no_position() {
    for src in ["keep", ";", "}", "if allof(,) { keep; }", "fileinto [\"a\" \"b\"];"] {
        let tokens = tokenize(src).unwrap();
        let err = read_script(&tokens).unwrap_err();
        assert_eq!(err.line, None, "source {:?}", src);
        assert_eq!(err.col, None, "source {:?}", src);
    }
}

#[test]
fn parse_missing_semicolon_message() {
    let tokens = tokenize("keep").unwrap();
    let err = read_script(&tokens).unwrap_err();
    assert_eq!(err.message, "missing ';' at end of input");
}

#[test]
fn parse_depth_limit_is_exact() {
    let mut ok = String::new();
    for _ in 0..100 {
        ok.push_str("if true { ");
    }
    ok.push_str("keep;");
    for _ in 0..100 {
        ok.push('}');
    }
    assert!(read_script(&tokenize(&ok).unwrap()).is_ok());
    let deeper = format!("if true {{ {} }}", ok);
    let err = read_script(&tokenize(&deeper).unwrap()).unwrap_err();
    assert_eq!(err.message, "nesting depth limit exceeded");
}

#[test]
fn parse_readme_example_is_one_flat_statement() {
    let tokens = tokenize("if header :contains [\"From\"] \"boss@example.com\" { fileinto \"Important\"; }").unwrap();
    let script = read_script(&tokens).unwrap();
    assert_eq!(
        script,
        vec![vec![
            Form::Word("if".into()),
            Form::Word("header".into()),
            Form::Tag("contains".into()),
            Form::StringList(vec!["From".into()]),
            Form::Str("boss@example.com".into()),
            Form::Block(vec![vec![Form::Word("fileinto".into()), Form::Str("Important".into())]]),
        ]]
    );
}
