use sieve_form::message::{address_part, extract_headers, find_header_end, split_addresses, AddressPart};

#[test]
fn split_addresses_single() {
    let got = split_addresses("alice@example.com");
    assert_eq!(got, vec!["alice@example.com"]);
}

#[test]
fn split_addresses_two_bare() {
    let got = split_addresses("alice@example.com, bob@example.com");
    assert_eq!(got, vec!["alice@example.com", "bob@example.com"]);
}

#[test]
fn split_addresses_angle_bracket_form() {
    let got = split_addresses("Alice <alice@example.com>, Bob <bob@example.com>");
    assert_eq!(got, vec!["Alice <alice@example.com>", "Bob <bob@example.com>"]);
}

#[test]
fn split_addresses_comma_inside_quoted_display_name() {
    let got = split_addresses("\"Doe, Jane\" <jane@example.com>, bob@example.com");
    assert_eq!(got, vec!["\"Doe, Jane\" <jane@example.com>", "bob@example.com"]);
}

#[test]
fn split_addresses_comma_inside_comment() {
    let got = split_addresses("alice@example.com (Alice, A.), bob@example.com");
    assert_eq!(got, vec!["alice@example.com (Alice, A.)", "bob@example.com"]);
}

#[test]
fn split_addresses_backslash_escaped_quote_in_display_name() {
    let got = split_addresses("\"Doe, \\\"Jane\\\"\" <jane@example.com>, bob@example.com");
    assert_eq!(
        got,
        vec!["\"Doe, \\\"Jane\\\"\" <jane@example.com>", "bob@example.com"]
    );
}

#[test]
fn address_part_bare_with_trailing_comment() {
    let got = address_part("user@example.com (Display Name)", AddressPart::All);
    assert_eq!(got, "user@example.com");
}

#[test]
fn address_part_bare_with_no_comment() {
    let got = address_part("user@example.com", AddressPart::All);
    assert_eq!(got, "user@example.com");
}

#[test]
fn address_part_angle_bracket_ignores_display_name_comment() {
    let got = address_part("Display Name <user@example.com>", AddressPart::All);
    assert_eq!(got, "user@example.com");
}

#[test]
fn find_header_end_lf_body_contains_crlf() {
    let msg = b"Subject: test\nFoo: bar\n\nBody starts here.\r\n\r\nMore body.";
    let pos = find_header_end(msg).unwrap();
    assert_eq!(pos, 22, "should pick the earlier \\n\\n, not the later \\r\\n\\r\\n");
    assert_eq!(&msg[..pos], b"Subject: test\nFoo: bar");
}

#[test]
fn find_header_end_crlf_only() {
    let msg = b"Subject: test\r\nFoo: bar\r\n\r\nBody here.";
    let pos = find_header_end(msg).unwrap();
    assert_eq!(&msg[..pos], b"Subject: test\r\nFoo: bar");
}

#[test]
fn find_header_end_lf_only() {
    let msg = b"Subject: test\nFoo: bar\n\nBody here.";
    let pos = find_header_end(msg).unwrap();
    assert_eq!(&msg[..pos], b"Subject: test\nFoo: bar");
}

#[test]
fn find_header_end_no_separator() {
    let msg = b"Subject: test\nFoo: bar";
    assert_eq!(find_header_end(msg), None);
}

#[test]
fn bare_address_ignores_angle_in_comment() {
    let got = address_part("user@example.com (secretary < corp > dept)", AddressPart::All);
    assert_eq!(got, "user@example.com");
}

#[test]
fn address_part_local_and_domain() {
    assert_eq!(address_part("Jo <jo.x@mail.example.org>", AddressPart::LocalPart), "jo.x");
    assert_eq!(address_part("Jo <jo.x@mail.example.org>", AddressPart::Domain), "mail.example.org");
    assert_eq!(address_part("no-at-sign", AddressPart::LocalPart), "");
    assert_eq!(address_part("no-at-sign", AddressPart::Domain), "");
}

#[test]
fn extract_headers_folds_and_lowercases() {
    let raw = b"Subject:  Hello\r\n  world \r\nX-Flag: yes\r\nnot a header\r\n: empty\r\n\r\nBody: no\r\n";
    let headers = extract_headers(raw);
    assert_eq!(
        headers,
        vec![
            ("subject".to_string(), "Hello world".to_string()),
            ("x-flag".to_string(), "yes".to_string()),
        ]
    );
}

#[test]
fn extract_headers_replaces_invalid_utf8() {
    let raw = b"Subject: a\xffb\n\nbody";
    let headers = extract_headers(raw);
    assert_eq!(headers, vec![("subject".to_string(), "a\u{fffd}b".to_string())]);
}

#[test]
fn split_addresses_drops_empty_pieces() {
    assert_eq!(split_addresses(" , a@b.c ,, "), vec!["a@b.c"]);
    assert!(split_addresses("   ").is_empty());
}
