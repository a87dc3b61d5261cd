use taskkit::auth::{connect_database, Credentials, Status};
use taskkit::text::{int_to_text, nat_to_text};
use taskkit::work::{expensive_computation, reverse_chars};

#[test]
fn credentials_keep_their_fields() {
    let creds = Credentials::new("user".to_owned(), "pass".to_owned());
    assert_eq!(creds.username(), "user");
    assert_eq!(creds.password(), "pass");
}

#[test]
fn database_connects() {
    assert_eq!(connect_database(), Status::Connected);
}

#[test]
fn decimal_text() {
    assert_eq!(nat_to_text(0), "0");
    assert_eq!(nat_to_text(1234567890), "1234567890");
    assert_eq!(int_to_text(-2147483648), "-2147483648");
    assert_eq!(int_to_text(2147483647), "2147483647");
    assert_eq!(int_to_text(-7), "-7");
}

#[test]
fn reversed_sentence() {
    let text: Vec<char> = "!dlroW wolleH".chars().collect();
    let out: String = reverse_chars(&text).into_iter().collect();
    assert_eq!(out, "Hellow World!");
    assert!(reverse_chars(&Vec::new()).is_empty());
}

#[test]
fn blocking_work_counts_every_iteration() {
    assert_eq!(expensive_computation(0), 0);
    assert_eq!(expensive_computation(100_000), 100_000);
}
