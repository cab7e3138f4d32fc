use sieve_form::evaluator::apply_set_modifiers;
use sieve_form::form::read_script;
use sieve_form::lexer::tokenize;
use sieve_form::parse_error::ParseError;
use sieve_form::validate::invalid_regex_error;
use sieve_form::{compile, compile_str, evaluate, utf8_error, SieveAction, SieveError, SieveErrorKind};

fn msg(subject: &str) -> Vec<u8> {
    format!("From: Ann <ann@example.com>\r\nTo: bob@example.org, Carl <carl@example.net>\r\nSubject: {subject}\r\n\r\nBody.\r\n")
        .into_bytes()
}

fn run(script: &str, message: &[u8]) -> Vec<SieveAction> {
    let compiled = compile(script.as_bytes()).expect("compile failed");
    evaluate(&compiled, message, "sender@example.com", "rcpt@example.org")
}

fn chars(s: &str) -> Vec<char> {
    s.chars().collect()
}

// --- laws on concrete values -------------------------------------------------

#[test]
fn set_then_read_gives_the_value_back() {
    let actions = run(
        "require [\"variables\", \"fileinto\"]; set \"Folder\" \"Work\"; fileinto \"x/${FOLDER}/y\";",
        &msg("s"),
    );
    assert_eq!(actions, vec![SieveAction::FileInto("x/Work/y".into())]);
}

#[test]
fn set_expands_the_value_when_set() {
    let actions = run(
        "require [\"variables\", \"fileinto\"]; set \"a\" \"1\"; set \"b\" \"${a}2\"; set \"a\" \"9\"; fileinto \"${b}\";",
        &msg("s"),
    );
    assert_eq!(actions, vec![SieveAction::FileInto("12".into())]);
}

#[test]
fn first_disposition_wins() {
    let actions = run("require [\"fileinto\"]; discard; fileinto \"Later\";", &msg("s"));
    assert_eq!(actions, vec![SieveAction::Discard]);
}

#[test]
fn requires_alone_keep() {
    let actions = run("require [\"fileinto\", \"reject\"]; require \"envelope\";", &msg("s"));
    assert_eq!(actions, vec![SieveAction::Keep]);
}

#[test]
fn modifiers_apply_in_precedence_order() {
    let a = run("require [\"variables\", \"fileinto\"]; set :length :upper \"x\" \"abc\"; fileinto \"${x}\";", &msg("s"));
    let b = run("require [\"variables\", \"fileinto\"]; set :upper :length \"x\" \"abc\"; fileinto \"${x}\";", &msg("s"));
    assert_eq!(a, vec![SieveAction::FileInto("3".into())]);
    assert_eq!(a, b);
    let c = run("require [\"variables\", \"fileinto\"]; set :firstline :quotewildcard \"x\" \"a*\nb\"; fileinto \"${x}\";", &msg("s"));
    assert_eq!(c, vec![SieveAction::FileInto("a\\*".into())]);
}

#[test]
fn apply_set_modifiers_values() {
    let mods = vec![chars("lower"), chars("quotewildcard")];
    assert_eq!(apply_set_modifiers(&chars("A?b"), &mods), chars("a\\?b"));
    assert_eq!(apply_set_modifiers(&chars("A?b"), &vec![chars("unknown")]), chars("A?b"));
    assert_eq!(apply_set_modifiers(&chars("héllo"), &vec![chars("length")]), chars("5"));
}

#[test]
fn size_over_and_under_exclusive_at_the_limit() {
    let m = msg("s");
    let n = m.len();
    let over = format!("require [\"fileinto\"]; if size :over {n} {{ fileinto \"Over\"; }}");
    let under = format!("require [\"fileinto\"]; if size :under {n} {{ fileinto \"Under\"; }}");
    assert_eq!(run(&over, &m), vec![SieveAction::Keep]);
    assert_eq!(run(&under, &m), vec![SieveAction::Keep]);
    let under_more = format!("require [\"fileinto\"]; if size :under {} {{ fileinto \"Under\"; }}", n + 1);
    assert_eq!(run(&under_more, &m), vec![SieveAction::FileInto("Under".into())]);
}

#[test]
fn header_presence_ignores_case() {
    let m = b"X-SPAM-FLAG: yes\r\n\r\n";
    assert_eq!(run("if exists \"x-spam-flag\" { discard; }", m), vec![SieveAction::Discard]);
    assert_eq!(run("if exists [\"x-spam-flag\", \"Subject\"] { discard; }", m), vec![SieveAction::Keep]);
}

// --- compile errors, one per kind ---------------------------------------------

#[test]
fn error_utf8() {
    let err = compile(b"keep;\xc3").unwrap_err();
    assert_eq!(err.kind, SieveErrorKind::Utf8);
    assert!(err.message.starts_with("invalid UTF-8: "), "{}", err.message);
    assert!(err.source().is_none());
    assert!(compile(b"keep; # caf\xc3\xa9").is_ok());
}

#[test]
fn error_lex_has_position() {
    let err = compile(b"keep;\n  @").unwrap_err();
    assert_eq!(err.kind, SieveErrorKind::Lex);
    assert_eq!(err.message, "parse error at 2:3: unexpected character '@'");
    let pe = err.source().expect("lexer errors carry their parse error");
    assert_eq!((pe.line, pe.col), (Some(2), Some(3)));
}

#[test]
fn error_parse_has_no_position() {
    let err = compile(b"keep").unwrap_err();
    assert_eq!(err.kind, SieveErrorKind::Parse);
    assert_eq!(err.message, "parse error: missing ';' at end of input");
    assert_eq!(err.source().map(|p| p.line), Some(None));
}

#[test]
fn error_unsupported_extension() {
    let err = compile(b"require [\"fileinto\", \"vacation\", \"bogus\"];").unwrap_err();
    assert_eq!(err.kind, SieveErrorKind::UnsupportedExtension("vacation".into()));
    assert_eq!(err.message, "unsupported Sieve extension: vacation");
}

#[test]
fn error_unsupported_comparator() {
    let err = compile(b"if header :is :comparator \"i;invalid\" \"Subject\" \"x\" { keep; }").unwrap_err();
    assert_eq!(err.kind, SieveErrorKind::UnsupportedComparator("i;invalid".into()));
    assert_eq!(err.message, "unsupported comparator: i;invalid");
    let err = compile(b"if header :comparator :is \"Subject\" \"x\" { keep; }").unwrap_err();
    assert_eq!(err.kind, SieveErrorKind::Parse);
    assert!(err.source().is_none());
}

#[test]
fn error_missing_require() {
    let err = compile(b"fileinto \"x\";").unwrap_err();
    assert_eq!(err.kind, SieveErrorKind::MissingRequire("fileinto".into()));
    assert_eq!(err.message, "extension command \"fileinto\" used without require declaration");
    let err = compile(b"if true { reject \"no\"; }").unwrap_err();
    assert_eq!(err.kind, SieveErrorKind::MissingRequire("reject".into()));
    let err = compile(b"if header :regex \"a\" \"b\" { keep; }").unwrap_err();
    assert_eq!(err.message, "extension match type \":regex\" used without require declaration");
}

#[test]
fn error_invalid_regex() {
    let err = compile(b"require \"regex\"; if header :regex \"Subject\" \"[x\" { keep; }").unwrap_err();
    assert_eq!(err.kind, SieveErrorKind::InvalidRegex("[x".into()));
    assert!(err.message.starts_with("invalid regex pattern \"[x\": "), "{}", err.message);
    assert!(err.message.len() > "invalid regex pattern \"[x\": ".len());
}

#[test]
fn public_error_builders() {
    let e = invalid_regex_error("a\"b", "oops");
    assert_eq!(e.message, "invalid regex pattern \"a\\\"b\": oops");
    assert_eq!(e.kind, SieveErrorKind::InvalidRegex("a\"b".into()));
    let u = utf8_error("bad byte");
    assert_eq!(u.message, "invalid UTF-8: bad byte");
    assert_eq!(u.kind, SieveErrorKind::Utf8);
    let s = SieveError::new("m".to_string(), SieveErrorKind::Parse);
    assert!(s.source().is_none());
}

#[test]
fn compile_str_matches_compile() {
    assert!(compile_str("keep;").is_ok());
    assert_eq!(compile_str("keep").unwrap_err(), compile(b"keep").unwrap_err());
}

// --- renderings ----------------------------------------------------------------

#[test]
fn render_actions() {
    assert_eq!(SieveAction::Keep.render(), "keep");
    assert_eq!(SieveAction::Discard.render(), "discard");
    assert_eq!(SieveAction::FileInto("a\"b".into()).render(), "fileinto \"a\\\"b\"");
    assert_eq!(SieveAction::Reject("no".into()).render(), "reject \"no\"");
    assert_eq!(SieveAction::Redirect("x@y".into()).render(), "redirect \"x@y\"");
}

#[test]
fn render_errors() {
    let pe: ParseError = tokenize("keep;\n\n   \"open").unwrap_err();
    assert_eq!(pe.render(), "parse error at 3:4: unterminated string literal");
    let pe = read_script(&tokenize("}").unwrap()).unwrap_err();
    assert_eq!(pe.render(), "parse error: unexpected '}'");
    assert_eq!(SieveErrorKind::MissingRequire("regex".into()).render(), "missing require declaration for: regex");
    assert_eq!(SieveErrorKind::InvalidRegex("a".into()).render(), "invalid regex pattern: \"a\"");
    assert_eq!(SieveErrorKind::Lex.render(), "lexer error");
}

// --- tests and actions ---------------------------------------------------------

#[test]
fn matches_glob_escapes_regex_characters() {
    let script = "if header :matches \"Subject\" \"a.b*\" { discard; }";
    assert_eq!(run(script, &msg("a.bcd")), vec![SieveAction::Discard]);
    assert_eq!(run(script, &msg("axbcd")), vec![SieveAction::Keep]);
    let q = "if header :matches \"Subject\" \"h?llo\" { discard; }";
    assert_eq!(run(q, &msg("HELLO")), vec![SieveAction::Discard]);
    assert_eq!(run(q, &msg("hello!")), vec![SieveAction::Keep]);
}

#[test]
fn regex_match_type_and_comparators() {
    let ci = "require \"regex\"; if header :regex \"Subject\" \"^urg.*\" { discard; }";
    assert_eq!(run(ci, &msg("URGENT")), vec![SieveAction::Discard]);
    let octet = "require \"regex\"; if header :regex :comparator \"i;octet\" \"Subject\" \"urg.*\" { discard; }";
    assert_eq!(run(octet, &msg("URGENT")), vec![SieveAction::Keep]);
    assert_eq!(run(octet, &msg("urgent")), vec![SieveAction::Discard]);
    let partial = "require \"regex\"; if header :regex \"Subject\" \"rg\" { discard; }";
    assert_eq!(run(partial, &msg("urgent")), vec![SieveAction::Keep]);
}

#[test]
fn is_with_octet_is_case_sensitive() {
    let s = "if header :is :comparator \"i;octet\" \"Subject\" \"Hi\" { discard; }";
    assert_eq!(run(s, &msg("Hi")), vec![SieveAction::Discard]);
    assert_eq!(run(s, &msg("hi")), vec![SieveAction::Keep]);
}

#[test]
fn address_parts() {
    let m = msg("s");
    let dom = "require \"fileinto\"; if address :domain \"To\" \"example.net\" { fileinto \"net\"; }";
    assert_eq!(run(dom, &m), vec![SieveAction::FileInto("net".into())]);
    let local = "require \"fileinto\"; if address :localpart \"From\" \"ann\" { fileinto \"ann\"; }";
    assert_eq!(run(local, &m), vec![SieveAction::FileInto("ann".into())]);
}

#[test]
fn envelope_test_and_redirect() {
    let s = "require \"envelope\"; if envelope :is \"from\" \"sender@example.com\" { redirect \"x@y.z\"; }";
    assert_eq!(run(s, &msg("s")), vec![SieveAction::Redirect("x@y.z".into())]);
    let d = "require \"envelope\"; if envelope :domain \"to\" \"example.org\" { discard; }";
    assert_eq!(run(d, &msg("s")), vec![SieveAction::Discard]);
}

#[test]
fn not_anyof_allof_and_constants() {
    assert_eq!(run("if not true { discard; }", &msg("s")), vec![SieveAction::Keep]);
    assert_eq!(run("if not false { discard; }", &msg("s")), vec![SieveAction::Discard]);
    assert_eq!(run("if anyof (false, false) { discard; }", &msg("s")), vec![SieveAction::Keep]);
    let err = compile(b"if allof () { discard; }").unwrap_err();
    assert_eq!(err.message, "parse error: empty test in test list");
}

#[test]
fn unknown_commands_are_ignored() {
    assert_eq!(run("frobnicate \"x\"; discard;", &msg("s")), vec![SieveAction::Discard]);
}

#[test]
fn elsif_chain_after_false_tests() {
    let s = "if false { discard; } elsif false { discard; } elsif true { stop; } else { discard; } discard;";
    assert_eq!(run(s, &msg("s")), vec![SieveAction::Keep]);
}

#[test]
fn compiled_script_is_send_and_sync() {
    fn assert_send_sync<T: Send + Sync>() {}
    assert_send_sync::<sieve_form::CompiledScript>();
}

#[test]
fn compiled_script_evaluates_repeatedly() {
    let compiled = compile(b"require \"regex\"; if header :regex \"Subject\" \"a+\" { discard; }").unwrap();
    let copy = compiled.clone();
    for _ in 0..3 {
        assert_eq!(evaluate(&compiled, &msg("aaa"), "", ""), vec![SieveAction::Discard]);
        assert_eq!(evaluate(&copy, &msg("b"), "", ""), vec![SieveAction::Keep]);
    }
}

#[test]
fn sieve_error_renders_its_message() {
    let err = compile(b"require \"nope\";").unwrap_err();
    assert_eq!(err.render(), "unsupported Sieve extension: nope");
    assert_eq!(err.kind.render(), "unsupported extension: nope");
}

#[test]
fn envelope_in_elsif_needs_require() {
    let err = compile(b"if true { keep; } elsif envelope :is \"from\" \"x@y.z\" { keep; }").unwrap_err();
    assert_eq!(err.kind, SieveErrorKind::MissingRequire("envelope".into()));
    assert_eq!(err.message, "extension test \"envelope\" used without require declaration");
    assert!(compile(b"if true { keep; } else { keep; } ").is_ok());
    assert!(compile(b"require \"envelope\"; if false { keep; } elsif envelope :is \"from\" \"x@y.z\" { discard; }").is_ok());
}

#[test]
fn size_without_tag_or_number_fails() {
    assert_eq!(run("if size 1 { discard; }", &msg("s")), vec![SieveAction::Keep]);
    assert_eq!(run("if size :over { discard; }", &msg("s")), vec![SieveAction::Keep]);
    assert_eq!(run("if size :under 1 { discard; }", &msg("s")), vec![SieveAction::Keep]);
}

#[test]
fn declaring_more_extensions_keeps_scripts_valid() {
    let base = "require \"fileinto\"; fileinto \"a\";";
    let more = "require [\"fileinto\", \"reject\", \"envelope\", \"variables\", \"regex\"]; fileinto \"a\";";
    assert_eq!(run(base, &msg("s")), run(more, &msg("s")));
}

#[test]
fn modifiers_in_any_order_of_three() {
    let a = run("require [\"variables\", \"fileinto\"]; set :firstline :length :lower \"x\" \"AB\nC\"; fileinto \"${x}\";", &msg("s"));
    let b = run("require [\"variables\", \"fileinto\"]; set :lower :firstline :length \"x\" \"AB\nC\"; fileinto \"${x}\";", &msg("s"));
    assert_eq!(a, vec![SieveAction::FileInto("4".into())]);
    assert_eq!(a, b);
}

#[test]
fn contains_casemap_and_empty_key() {
    assert_eq!(run("if header :contains \"Subject\" \"GeNt\" { discard; }", &msg("urgent")), vec![SieveAction::Discard]);
    assert_eq!(run("if header :contains \"Subject\" \"\" { discard; }", &msg("x")), vec![SieveAction::Discard]);
    assert_eq!(
        run("if header :contains :comparator \"i;octet\" \"Subject\" \"GENT\" { discard; }", &msg("urgent")),
        vec![SieveAction::Keep]
    );
}

#[test]
fn compiled_script_debug_summary() {
    let compiled = compile(b"require \"regex\"; if header :regex \"Subject\" \"a+\" { discard; }").unwrap();
    assert_eq!(
        compiled.debug_summary(),
        "CompiledScript { script: \"Script { commands: 2 }\", regex_cache: \"<2 compiled patterns>\" }"
    );
    let empty = compile(b"").unwrap();
    assert_eq!(
        empty.debug_summary(),
        "CompiledScript { script: \"Script { commands: 0 }\", regex_cache: \"<0 compiled patterns>\" }"
    );
}
