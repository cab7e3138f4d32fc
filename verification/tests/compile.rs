use sieve_form::{compile, evaluate, SieveAction, SieveErrorKind};

fn make_msg(subject: &str) -> Vec<u8> {
    format!(
        "From: sender@example.com\r\nTo: recipient@example.com\r\nSubject: {subject}\r\n\r\nBody.\r\n"
    )
    .into_bytes()
}

#[test]
fn compile_simple_script() {
    let src = b"require [\"fileinto\"];\nif header :contains \"X-Spam\" \"yes\" { fileinto \"Spam\"; }";
    let result = compile(src);
    assert!(result.is_ok(), "compile failed: {:?}", result.err());
}

#[test]
fn compile_invalid_utf8() {
    let result = compile(b"\xff\xfe");
    assert!(result.is_err());
    assert!(result.unwrap_err().message.contains("UTF-8"));
}

#[test]
fn eval_implicit_keep_empty_script() {
    let script = compile(b"").unwrap();
    let actions = evaluate(&script, &make_msg("test"), "sender@example.com", "recip@example.com");
    assert_eq!(actions, vec![SieveAction::Keep]);
}

#[test]
fn eval_explicit_keep() {
    let script = compile(b"keep;").unwrap();
    let actions = evaluate(&script, &make_msg("test"), "", "");
    assert_eq!(actions, vec![SieveAction::Keep]);
}

#[test]
fn eval_discard() {
    let script = compile(b"discard;").unwrap();
    let actions = evaluate(&script, &make_msg("test"), "", "");
    assert_eq!(actions, vec![SieveAction::Discard]);
}

#[test]
fn eval_fileinto_subject_match() {
    let script = compile(
        b"require [\"fileinto\"]; if header :contains \"Subject\" \"URGENT\" { fileinto \"INBOX.Urgent\"; }",
    )
    .unwrap();
    let actions = evaluate(&script, &make_msg("URGENT: fix this"), "", "");
    assert_eq!(actions, vec![SieveAction::FileInto("INBOX.Urgent".into())]);
}

#[test]
fn eval_fileinto_subject_no_match() {
    let script = compile(
        b"require [\"fileinto\"]; if header :contains \"Subject\" \"URGENT\" { fileinto \"INBOX.Urgent\"; }",
    )
    .unwrap();
    let actions = evaluate(&script, &make_msg("Normal message"), "", "");
    assert_eq!(actions, vec![SieveAction::Keep]);
}

#[test]
fn eval_reject() {
    let script = compile(b"require [\"reject\"]; reject \"Not wanted\";").unwrap();
    let actions = evaluate(&script, &make_msg("test"), "", "");
    assert_eq!(actions, vec![SieveAction::Reject("Not wanted".into())]);
}

#[test]
fn eval_header_is_case_insensitive() {
    let script = compile(b"if header :is \"subject\" \"exact match\" { discard; }").unwrap();
    let actions = evaluate(&script, &make_msg("exact match"), "", "");
    assert_eq!(actions, vec![SieveAction::Discard]);
}

#[test]
fn eval_size_over_true() {
    let script = compile(b"require [\"fileinto\"]; if size :over 10 { fileinto \"Big\"; }").unwrap();
    let msg = make_msg("test");
    let actions = evaluate(&script, &msg, "", "");
    assert_eq!(actions, vec![SieveAction::FileInto("Big".into())]);
}

#[test]
fn eval_exists_header_present() {
    let script =
        compile(b"require [\"fileinto\"]; if exists \"X-Spam-Flag\" { fileinto \"Spam\"; }").unwrap();
    let msg = b"X-Spam-Flag: YES\r\nSubject: test\r\n\r\nBody\r\n";
    let actions = evaluate(&script, msg, "", "");
    assert_eq!(actions, vec![SieveAction::FileInto("Spam".into())]);
}

#[test]
fn eval_unknown_extension_compile_error() {
    let result = compile(b"require [\"erewhon\"];");
    assert!(result.is_err());
}

#[test]
fn eval_unknown_comparator_compile_error() {
    let result = compile(b"if header :is :comparator \"i;invalid\" \"Subject\" \"test\" { keep; }");
    assert!(result.is_err(), "unknown comparator must fail at compile");
    assert!(result.unwrap_err().message.contains("comparator"), "error must mention comparator");
}

#[test]
fn compile_invalid_regex_pattern_fails() {
    let result = compile(b"require [\"regex\"]; if header :regex \"Subject\" \"[invalid\" { keep; }");
    assert!(result.is_err(), "invalid regex must fail at compile");
}

#[test]
fn compile_regex_does_not_validate_header_name_as_pattern() {
    let result = compile(b"require [\"regex\"]; if header :regex \"X[Special]\" \"test.*\" { keep; }");
    assert!(result.is_ok(), "header name should not be validated as regex: {:?}", result.err());
}

#[test]
fn compile_regex_validates_pattern_in_string_list() {
    let result =
        compile(b"require [\"regex\"]; if header :regex \"Subject\" [\"ok.*\", \"[invalid\"] { keep; }");
    assert!(result.is_err(), "invalid regex in key StringList must fail at compile");
}

#[test]
fn compile_regex_invalid_in_if_clause_with_elsif() {
    let result = compile(
        b"require [\"regex\"]; if header :regex \"Subject\" \"[invalid\" { keep; } elsif header :is \"To\" \"key\" { keep; }",
    );
    assert!(result.is_err(), "invalid regex in if clause must fail even when elsif is present");
}

#[test]
fn eval_variables_set_and_fileinto() {
    let script = compile(
        b"require [\"variables\", \"fileinto\"]; set \"folder\" \"INBOX.Work\"; fileinto \"${folder}\";",
    )
    .unwrap();
    let actions = evaluate(&script, &make_msg("test"), "", "");
    assert_eq!(actions, vec![SieveAction::FileInto("INBOX.Work".into())]);
}

#[test]
fn eval_variables_modifier_lower() {
    let script = compile(
        b"require [\"variables\", \"fileinto\"]; set :lower \"folder\" \"INBOX.WORK\"; fileinto \"${folder}\";",
    )
    .unwrap();
    let actions = evaluate(&script, &make_msg("test"), "", "");
    assert_eq!(actions, vec![SieveAction::FileInto("inbox.work".into())]);
}

#[test]
fn eval_variables_modifier_upper() {
    let script = compile(
        b"require [\"variables\", \"fileinto\"]; set :upper \"folder\" \"inbox.work\"; fileinto \"${folder}\";",
    )
    .unwrap();
    let actions = evaluate(&script, &make_msg("test"), "", "");
    assert_eq!(actions, vec![SieveAction::FileInto("INBOX.WORK".into())]);
}

#[test]
fn eval_variables_modifier_length() {
    let script = compile(
        b"require [\"variables\", \"fileinto\"]; set :length \"len\" \"hello\"; fileinto \"${len}\";",
    )
    .unwrap();
    let actions = evaluate(&script, &make_msg("test"), "", "");
    assert_eq!(actions, vec![SieveAction::FileInto("5".into())]);
}

#[test]
fn eval_variables_modifier_firstline() {
    let script = compile(
        b"require [\"variables\", \"fileinto\"]; set :firstline \"f\" \"line1\nline2\"; fileinto \"${f}\";",
    )
    .unwrap();
    let actions = evaluate(&script, &make_msg("test"), "", "");
    assert_eq!(actions, vec![SieveAction::FileInto("line1".into())]);
}

#[test]
fn eval_variables_modifier_quotewildcard_backslash() {
    let script = compile(
        b"require [\"variables\", \"fileinto\"]; set :quotewildcard \"x\" \"a\\\\b\"; fileinto \"${x}\";",
    )
    .unwrap();
    let actions = evaluate(&script, &make_msg("test"), "", "");
    assert_eq!(actions, vec![SieveAction::FileInto("a\\\\b".into())]);
}

#[test]
fn eval_variables_case_insensitive_name() {
    let script = compile(
        b"require [\"variables\", \"fileinto\"]; set \"MyVar\" \"hello\"; fileinto \"${myvar}\";",
    )
    .unwrap();
    let actions = evaluate(&script, &make_msg("test"), "", "");
    assert_eq!(actions, vec![SieveAction::FileInto("hello".into())]);
}

#[test]
fn eval_no_variables_require_no_substitution() {
    let script = compile(b"require [\"reject\"]; reject \"${reason}\";").unwrap();
    let actions = evaluate(&script, &make_msg("test"), "", "");
    assert_eq!(actions, vec![SieveAction::Reject("${reason}".into())]);
}

#[test]
fn compile_set_without_require_fails() {
    let result = compile(b"set \"x\" \"value\";");
    assert!(result.is_err());
    let err = result.unwrap_err();
    assert!(
        matches!(err.kind, SieveErrorKind::MissingRequire(ref ext) if ext == "variables"),
        "expected MissingRequire(variables), got {:?}",
        err.kind
    );
}

#[test]
fn compile_envelope_without_require_fails() {
    let result = compile(b"if envelope :is \"from\" \"x@y.z\" { keep; }");
    assert!(result.is_err());
    let err = result.unwrap_err();
    assert!(
        matches!(err.kind, SieveErrorKind::MissingRequire(ref ext) if ext == "envelope"),
        "expected MissingRequire(envelope), got {:?}",
        err.kind
    );
}

#[test]
fn compile_regex_without_require_fails() {
    let result = compile(b"if header :regex \"Subject\" \"test.*\" { keep; }");
    assert!(result.is_err());
    let err = result.unwrap_err();
    assert!(
        matches!(err.kind, SieveErrorKind::MissingRequire(ref ext) if ext == "regex"),
        "expected MissingRequire(regex), got {:?}",
        err.kind
    );
}

#[test]
fn parse_deep_nesting_returns_error() {
    let open = b"if true { ".repeat(200);
    let close = b"}".repeat(200);
    let mut script_bytes = Vec::new();
    script_bytes.extend_from_slice(&open);
    script_bytes.extend_from_slice(b"keep;");
    script_bytes.extend_from_slice(&close);
    let result = compile(&script_bytes);
    assert!(result.is_err(), "200 nested if blocks must exceed depth limit and return an error");
    let err = result.unwrap_err();
    assert!(
        err.message.contains("nesting depth"),
        "error message should mention nesting depth, got: {:?}",
        err
    );
}

#[test]
fn parse_allof_empty_test_returns_error() {
    let result = compile(b"if allof(,) { keep; }");
    assert!(result.is_err(), "empty test in allof must return a parse error");
    let err = result.unwrap_err();
    assert!(
        err.message.contains("empty test"),
        "error message should mention empty test, got: {:?}",
        err
    );
}
