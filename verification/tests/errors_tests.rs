use s3_demo::errors::{RemoteFailure, delete_failure_message};
use s3_demo::order::lex_lt_exec;

#[test]
fn structured_failure_reports_its_message() {
    let failure = RemoteFailure::Structured(String::from("access denied"));
    assert_eq!(delete_failure_message(&failure), Some(String::from("access denied")));
}

#[test]
fn opaque_failure_body_is_decoded_as_text() {
    let failure = RemoteFailure::Opaque(b"BucketNotEmpty: the bucket you tried to delete is not empty".to_vec());
    assert_eq!(
        delete_failure_message(&failure),
        Some(String::from("BucketNotEmpty: the bucket you tried to delete is not empty"))
    );
}

#[test]
fn opaque_failure_with_invalid_text_yields_nothing() {
    let failure = RemoteFailure::Opaque(vec![0xff, 0xfe, 0x41]);
    assert_eq!(delete_failure_message(&failure), None);
}

#[test]
fn opaque_failure_with_multibyte_text_is_decoded() {
    let failure = RemoteFailure::Opaque("café".as_bytes().to_vec());
    assert_eq!(delete_failure_message(&failure), Some(String::from("café")));
}

#[test]
fn lex_order_prefix_comes_first() {
    assert!(lex_lt_exec("fo", "foo"));
    assert!(!lex_lt_exec("foo", "fo"));
}

#[test]
fn lex_order_compares_first_difference() {
    assert!(lex_lt_exec("foo", "report.txt"));
    assert!(!lex_lt_exec("report.txt", "foo"));
    assert!(lex_lt_exec("bar", "foo"));
}

#[test]
fn lex_order_is_irreflexive() {
    assert!(!lex_lt_exec("foo", "foo"));
    assert!(!lex_lt_exec("", ""));
}

#[test]
fn lex_order_empty_comes_first() {
    assert!(lex_lt_exec("", "a"));
    assert!(!lex_lt_exec("a", ""));
}
